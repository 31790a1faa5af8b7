use vstd::prelude::*;

verus! {

broadcast use vstd::seq_lib::group_to_multiset_ensures;

/// Whether a file name carries the script extension `.lua`.
pub open spec fn is_script(name: Seq<char>) -> bool {
    name.len() >= 4 && name.subrange(name.len() - 4, name.len() as int) == ".lua"@
}

/// Lexicographic order on names, by code point.
pub open spec fn lex_le(a: Seq<char>, b: Seq<char>) -> bool
    decreases a.len(),
{
    if a.len() == 0 {
        true
    } else if b.len() == 0 {
        false
    } else if (a[0] as int) < (b[0] as int) {
        true
    } else if (a[0] as int) == (b[0] as int) {
        lex_le(a.drop_first(), b.drop_first())
    } else {
        false
    }
}

/// Any two names are ordered one way or the other.
pub proof fn lemma_lex_total(a: Seq<char>, b: Seq<char>)
    ensures
        lex_le(a, b) || lex_le(b, a),
    decreases a.len(),
{
    if a.len() > 0 && b.len() > 0 && (a[0] as int) == (b[0] as int) {
        lemma_lex_total(a.drop_first(), b.drop_first());
    }
}

/// The order on names is transitive.
pub proof fn lemma_lex_trans(a: Seq<char>, b: Seq<char>, c: Seq<char>)
    requires
        lex_le(a, b),
        lex_le(b, c),
    ensures
        lex_le(a, c),
    decreases a.len(),
{
    if a.len() > 0 && b.len() > 0 && c.len() > 0 && (a[0] as int) == (b[0] as int) && (b[0] as int)
        == (c[0] as int) {
        lemma_lex_trans(a.drop_first(), b.drop_first(), c.drop_first());
    }
}

/// Two names each ordered no later than the other are equal.
pub proof fn lemma_lex_antisym(a: Seq<char>, b: Seq<char>)
    requires
        lex_le(a, b),
        lex_le(b, a),
    ensures
        a == b,
    decreases a.len(),
{
    if a.len() > 0 && b.len() > 0 {
        assert((a[0] as int) == (b[0] as int));
        lemma_lex_antisym(a.drop_first(), b.drop_first());
        assert(a[0] == b[0]);
        assert(a =~= seq![a[0]] + a.drop_first());
        assert(b =~= seq![b[0]] + b.drop_first());
    } else {
        assert(a =~= b);
    }
}

/// Two ordered sequences of names that hold the same names, counted with
/// repetition, are equal.
pub proof fn lemma_sorted_unique(a: Seq<Seq<char>>, b: Seq<Seq<char>>)
    requires
        sorted(a),
        sorted(b),
        a.to_multiset() == b.to_multiset(),
    ensures
        a == b,
    decreases a.len(),
{
    assert(a.len() == a.to_multiset().len());
    assert(b.len() == b.to_multiset().len());
    if a.len() == 0 {
        assert(a =~= b);
    } else {
        assert(a.to_multiset().count(a[0]) > 0);
        assert(b.contains(a[0]));
        let j = choose|j: int| 0 <= j < b.len() && b[j] == a[0];
        assert(b.to_multiset().count(b[0]) > 0);
        assert(a.contains(b[0]));
        let i = choose|i: int| 0 <= i < a.len() && a[i] == b[0];
        if i > 0 {
            assert(lex_le(a[0], a[i]));
        }
        if j > 0 {
            assert(lex_le(b[0], b[j]));
        }
        lemma_lex_total(a[0], a[0]);
        lemma_lex_antisym(a[0], b[0]);
        vstd::seq_lib::to_multiset_remove(a, 0);
        vstd::seq_lib::to_multiset_remove(b, 0);
        assert(a.remove(0) =~= a.drop_first());
        assert(b.remove(0) =~= b.drop_first());
        assert(sorted(a.drop_first())) by {
            assert forall|x: int, y: int| 0 <= x < y < a.drop_first().len() implies lex_le(
                #[trigger] a.drop_first()[x],
                #[trigger] a.drop_first()[y],
            ) by {
                assert(lex_le(a[x + 1], a[y + 1]));
            }
        }
        assert(sorted(b.drop_first())) by {
            assert forall|x: int, y: int| 0 <= x < y < b.drop_first().len() implies lex_le(
                #[trigger] b.drop_first()[x],
                #[trigger] b.drop_first()[y],
            ) by {
                assert(lex_le(b[x + 1], b[y + 1]));
            }
        }
        lemma_sorted_unique(a.drop_first(), b.drop_first());
        assert(a =~= seq![a[0]] + a.drop_first());
        assert(b =~= seq![b[0]] + b.drop_first());
    }
}

/// Whether a sequence of names is in lexicographic order.
pub open spec fn sorted(s: Seq<Seq<char>>) -> bool {
    forall|i: int, j: int| 0 <= i < j < s.len() ==> lex_le(#[trigger] s[i], #[trigger] s[j])
}

/// The characters of each string.
pub open spec fn texts(s: Seq<String>) -> Seq<Seq<char>> {
    s.map_values(|x: String| x@)
}

/// The script names among directory entries, in listing order; `None`
/// stands for a name that is not valid text.
pub open spec fn script_entries(entries: Seq<Option<String>>) -> Seq<Seq<char>>
    decreases entries.len(),
{
    if entries.len() == 0 {
        Seq::empty()
    } else {
        let rest = script_entries(entries.drop_last());
        match entries.last() {
            Some(n) => if is_script(n@) {
                rest.push(n@)
            } else {
                rest
            },
            None => rest,
        }
    }
}

/// How the loader treats one entry of the prelude directory.
#[derive(PartialEq, Eq, Structural, Clone, Copy, Debug)]
pub enum EntryKind {
    /// The name is not valid text: the entry is logged and skipped.
    InvalidName,
    /// The name lacks the script extension: the entry is skipped.
    NotScript,
    /// The entry is a script fragment to run.
    Script,
}

/// Whether a name ends with the script extension `.lua`.
pub fn is_script_name(name: &String) -> (r: bool)
    ensures
        r == is_script(name@),
{
    let n = name.as_str().unicode_len();
    if n < 4 {
        return false;
    }
    let tail = name.as_str().substring_char(n - 4, n);
    let ext = ".lua";
    proof {
        reveal_strlit(".lua");
        assert(ext@.len() == 4);
    }
    let mut k: usize = 0;
    while k < 4
        invariant
            n == name@.len(),
            n >= 4,
            tail@ == name@.subrange(n - 4, n as int),
            tail@.len() == 4,
            ext@ == ".lua"@,
            ext@.len() == 4,
            k <= 4,
            forall|j: int| 0 <= j < k ==> tail@[j] == ext@[j],
        decreases 4 - k,
    {
        if tail.get_char(k) != ext.get_char(k) {
            return false;
        }
        k = k + 1;
    }
    assert(tail@ =~= ".lua"@);
    true
}

/// The loader's treatment of a directory entry with the given name.
pub fn classify_entry(name: &Option<String>) -> (r: EntryKind)
    ensures
        r == (match name {
            None => EntryKind::InvalidName,
            Some(n) => if is_script(n@) {
                EntryKind::Script
            } else {
                EntryKind::NotScript
            },
        }),
{
    match name {
        None => EntryKind::InvalidName,
        Some(n) => if is_script_name(n) {
            EntryKind::Script
        } else {
            EntryKind::NotScript
        },
    }
}

/// Whether `a` comes no later than `b` in lexicographic order.
pub fn name_le(a: &String, b: &String) -> (r: bool)
    ensures
        r == lex_le(a@, b@),
{
    let la = a.as_str().unicode_len();
    let lb = b.as_str().unicode_len();
    let mut i: usize = 0;
    assert(a@.skip(0) =~= a@);
    assert(b@.skip(0) =~= b@);
    while i < la && i < lb
        invariant
            la == a@.len(),
            lb == b@.len(),
            i <= la,
            i <= lb,
            lex_le(a@, b@) == lex_le(a@.skip(i as int), b@.skip(i as int)),
        decreases la - i,
    {
        let ca = a.as_str().get_char(i) as u32;
        let cb = b.as_str().get_char(i) as u32;
        assert(a@.skip(i as int)[0] == a@[i as int]);
        assert(b@.skip(i as int)[0] == b@[i as int]);
        if ca < cb {
            return true;
        }
        if ca > cb {
            return false;
        }
        assert(a@.skip(i + 1) =~= a@.skip(i as int).drop_first());
        assert(b@.skip(i + 1) =~= b@.skip(i as int).drop_first());
        i = i + 1;
    }
    i == la
}

/// The first position at which `name` can stand in `r` with the order kept,
/// after every entry that does not come later than it.
fn insert_pos(r: &Vec<String>, name: &String) -> (k: usize)
    ensures
        k <= r@.len(),
        forall|j: int| 0 <= j < k ==> lex_le(#[trigger] texts(r@)[j], name@),
        k < r@.len() ==> !lex_le(texts(r@)[k as int], name@),
{
    let mut k: usize = 0;
    while k < r.len()
        invariant
            k <= r@.len(),
            forall|j: int| 0 <= j < k ==> lex_le(#[trigger] texts(r@)[j], name@),
        decreases r@.len() - k,
    {
        if !name_le(&r[k], name) {
            return k;
        }
        k = k + 1;
    }
    k
}

/// Inserts `name` into an ordered list, keeping it ordered.
fn insert_sorted(r: &mut Vec<String>, name: String)
    requires
        sorted(texts(old(r)@)),
    ensures
        sorted(texts(final(r)@)),
        texts(final(r)@).to_multiset() == texts(old(r)@).to_multiset().insert(name@),
{
    let k = insert_pos(r, &name);
    let ghost s = texts(r@);
    let ghost n = name@;
    r.insert(k, name);
    assert(texts(r@) =~= s.insert(k as int, n));
    proof {
        vstd::seq_lib::to_multiset_insert(s, k as int, n);
        let t = s.insert(k as int, n);
        assert forall|i: int, j: int| 0 <= i < j < t.len() implies lex_le(
            #[trigger] t[i],
            #[trigger] t[j],
        ) by {
            if j < k {
                assert(lex_le(s[i], s[j]));
            } else if j == k {
                assert(lex_le(s[i], n));
            } else if i < k {
                assert(lex_le(s[i], s[j - 1]));
            } else if i == k {
                lemma_lex_total(s[k as int], n);
                if j - 1 > k {
                    assert(lex_le(s[k as int], s[j - 1]));
                    lemma_lex_trans(n, s[k as int], s[j - 1]);
                }
            } else {
                assert(lex_le(s[i - 1], s[j - 1]));
            }
        }
    }
}

/// The script fragments among the entries of the prelude directory, in
/// lexicographic order of their names.
pub fn fragment_names(entries: &Vec<Option<String>>) -> (r: Vec<String>)
    ensures
        sorted(texts(r@)),
        texts(r@).to_multiset() == script_entries(entries@).to_multiset(),
{
    let mut r: Vec<String> = Vec::new();
    let mut i: usize = 0;
    assert(texts(r@) =~= Seq::<Seq<char>>::empty());
    while i < entries.len()
        invariant
            i <= entries@.len(),
            sorted(texts(r@)),
            texts(r@).to_multiset() == script_entries(entries@.take(i as int)).to_multiset(),
        decreases entries@.len() - i,
    {
        assert(entries@.take(i + 1).drop_last() =~= entries@.take(i as int));
        assert(entries@.take(i + 1).last() == entries@[i as int]);
        if classify_entry(&entries[i]) == EntryKind::Script {
            let name = match &entries[i] {
                Some(n) => n.clone(),
                None => String::new(),
            };
            proof {
                vstd::seq_lib::to_multiset_build(script_entries(entries@.take(i as int)), name@);
            }
            insert_sorted(&mut r, name);
        }
        i = i + 1;
    }
    assert(entries@.take(entries@.len() as int) =~= entries@);
    r
}

/// One script to run during bootstrap, in the order of a plan.
#[derive(Debug)]
pub enum PreludeStep {
    /// The single prelude file `prelude.lua` under the source root.
    File,
    /// The named fragment in the `prelude` directory.
    Fragment(String),
}

/// The name of a fragment step (empty for the single file).
pub open spec fn step_text(s: PreludeStep) -> Seq<char> {
    match s {
        PreludeStep::Fragment(n) => n@,
        PreludeStep::File => Seq::empty(),
    }
}

/// The number of leading steps that run the single prelude file.
pub open spec fn file_steps(file_is_file: bool) -> int {
    if file_is_file {
        1
    } else {
        0
    }
}

/// The script names of a directory listing; an absent directory lists none.
pub open spec fn listed_scripts(listing: Option<Vec<Option<String>>>) -> Seq<Seq<char>> {
    match listing {
        Some(v) => script_entries(v@),
        None => Seq::empty(),
    }
}

/// The fragments that a plan runs after its leading steps, by name.
pub open spec fn plan_fragments(r: Seq<PreludeStep>, file_is_file: bool) -> Seq<Seq<char>> {
    r.skip(file_steps(file_is_file)).map_values(|s: PreludeStep| step_text(s))
}

/// The scripts that bootstrap runs, in order: the single prelude file when it
/// is a regular file, then every script fragment that the prelude directory
/// lists (`None` when the directory does not exist), ordered by name.
pub fn plan_prelude(file_is_file: bool, listing: &Option<Vec<Option<String>>>) -> (r: Vec<
    PreludeStep,
>)
    ensures
        r@.len() >= file_steps(file_is_file),
        file_is_file ==> r@[0] is File,
        forall|k: int| file_steps(file_is_file) <= k < r@.len() ==> #[trigger] r@[k] is Fragment,
        sorted(plan_fragments(r@, file_is_file)),
        plan_fragments(r@, file_is_file).to_multiset() == listed_scripts(*listing).to_multiset(),
{
    let mut r: Vec<PreludeStep> = Vec::new();
    if file_is_file {
        r.push(PreludeStep::File);
    }
    let ghost off = file_steps(file_is_file);
    let names = match listing {
        Some(v) => fragment_names(v),
        None => Vec::new(),
    };
    assert(texts(names@).to_multiset() == listed_scripts(*listing).to_multiset()) by {
        if listing is None {
            assert(texts(names@) =~= Seq::<Seq<char>>::empty());
        }
    }
    let mut j: usize = 0;
    while j < names.len()
        invariant
            j <= names@.len(),
            r@.len() == off + j,
            off == file_steps(file_is_file),
            file_is_file ==> r@[0] is File,
            forall|k: int| off <= k < r@.len() ==> #[trigger] r@[k] is Fragment,
            plan_fragments(r@, file_is_file) == texts(names@).take(j as int),
        decreases names@.len() - j,
    {
        let ghost before = r@;
        r.push(PreludeStep::Fragment(names[j].clone()));
        assert(plan_fragments(r@, file_is_file) =~= texts(names@).take(j + 1)) by {
            assert(forall|k: int| 0 <= k < j ==> r@.skip(off)[k] == before.skip(off)[k]);
        }
        j = j + 1;
    }
    assert(texts(names@).take(names@.len() as int) =~= texts(names@));
    r
}

/// The fragments of the prelude directory run in an order fixed by their
/// names alone: plans made from two listings that hold the same script names,
/// in whatever order the directory yields them, run the same fragments in the
/// same order.
pub proof fn lemma_fragment_order_ignores_listing_order(
    p1: Seq<Seq<char>>,
    p2: Seq<Seq<char>>,
    l1: Seq<Option<String>>,
    l2: Seq<Option<String>>,
)
    requires
        sorted(p1),
        sorted(p2),
        p1.to_multiset() == script_entries(l1).to_multiset(),
        p2.to_multiset() == script_entries(l2).to_multiset(),
        script_entries(l1).to_multiset() == script_entries(l2).to_multiset(),
    ensures
        p1 == p2,
{
    lemma_sorted_unique(p1, p2);
}

} // verus!
