use vstd::prelude::*;

verus! {

/// The renderings of the arguments of a `print` call, in call order, each
/// pair separated by one tab.
pub open spec fn tab_join(parts: Seq<String>) -> Seq<char>
    decreases parts.len(),
{
    if parts.len() == 0 {
        Seq::empty()
    } else if parts.len() == 1 {
        parts[0]@
    } else {
        tab_join(parts.drop_last()) + "\t"@ + parts.last()@
    }
}

/// The prefix that marks a log record as guest output.
pub open spec fn guest_prefix() -> Seq<char> {
    "lua: "@
}

/// The message body of a `print` call whose arguments rendered as `parts`.
pub fn print_message(parts: &Vec<String>) -> (r: String)
    ensures
        r@ == tab_join(parts@),
{
    let mut r = String::new();
    let mut i: usize = 0;
    while i < parts.len()
        invariant
            i <= parts@.len(),
            r@ == tab_join(parts@.take(i as int)),
        decreases parts@.len() - i,
    {
        if i > 0 {
            r.append("\t");
        }
        r.append(parts[i].as_str());
        assert(parts@.take(i + 1).drop_last() =~= parts@.take(i as int));
        i = i + 1;
    }
    assert(parts@.take(parts@.len() as int) =~= parts@);
    r
}

/// The text of the single log record that a `print` call emits.
pub fn log_line(parts: &Vec<String>) -> (r: String)
    ensures
        r@ == guest_prefix() + tab_join(parts@),
{
    let mut r = String::new();
    r.append("lua: ");
    let body = print_message(parts);
    r.append(body.as_str());
    r
}

} // verus!
