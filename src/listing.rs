use vstd::prelude::*;
use vstd::string::*;

use crate::text::push_char;

verus! {

/// The characters with the Unicode `White_Space` property.
pub open spec fn is_white_space(c: char) -> bool {
    let n = c as int;
    (0x9 <= n <= 0xd) || n == 0x20 || n == 0x85 || n == 0xa0 || n == 0x1680 || (0x2000 <= n
        <= 0x200a) || n == 0x2028 || n == 0x2029 || n == 0x202f || n == 0x205f || n == 0x3000
}

/// The text without its leading white space.
pub open spec fn trim_start(s: Seq<char>) -> Seq<char>
    decreases s.len(),
{
    if s.len() > 0 && is_white_space(s[0]) {
        trim_start(s.drop_first())
    } else {
        s
    }
}

/// The text without its trailing white space.
pub open spec fn trim_end(s: Seq<char>) -> Seq<char>
    decreases s.len(),
{
    if s.len() > 0 && is_white_space(s.last()) {
        trim_end(s.drop_last())
    } else {
        s
    }
}

/// The text without leading and trailing white space.
pub open spec fn trimmed(s: Seq<char>) -> Seq<char> {
    trim_end(trim_start(s))
}

/// Relies on `str::trim`: the slice without leading and trailing characters
/// of the Unicode `White_Space` property.
#[verifier::external_body]
fn trim(s: &str) -> (r: &str)
    ensures
        r@ == trimmed(s@),
{
    s.trim()
}

/// The pieces between commas: `n` commas give `n + 1` pieces.
pub open spec fn split_commas(s: Seq<char>) -> Seq<Seq<char>>
    decreases s.len(),
{
    if s.len() == 0 {
        seq![Seq::empty()]
    } else {
        let p = split_commas(s.drop_last());
        if s.last() == ',' {
            p.push(Seq::empty())
        } else {
            p.update(p.len() - 1, p.last().push(s.last()))
        }
    }
}

proof fn lemma_split_nonempty(s: Seq<char>)
    ensures
        split_commas(s).len() >= 1,
    decreases s.len(),
{
    if s.len() > 0 {
        lemma_split_nonempty(s.drop_last());
    }
}

/// The trimmed pieces that are not empty, in order.
pub open spec fn names_of(pieces: Seq<Seq<char>>) -> Seq<Seq<char>>
    decreases pieces.len(),
{
    if pieces.len() == 0 {
        Seq::empty()
    } else if trimmed(pieces.last()).len() > 0 {
        names_of(pieces.drop_last()).push(trimmed(pieces.last()))
    } else {
        names_of(pieces.drop_last())
    }
}

/// The views of a list of strings.
pub open spec fn string_views(v: Seq<String>) -> Seq<Seq<char>> {
    v.map_values(|s: String| s@)
}

/// The domain names in the comma-separated listing of the store's domains:
/// each piece between commas, trimmed of white space, and kept when not
/// empty.
pub fn parse_domain_list(text: &str) -> (r: Vec<String>)
    ensures
        string_views(r@) == names_of(split_commas(text@)),
{
    let mut out: Vec<String> = Vec::new();
    let mut cur = String::new();
    proof {
        assert(text@.take(0) =~= Seq::<char>::empty());
        assert(string_views(out@) =~= names_of(Seq::<Seq<char>>::empty()));
        assert(split_commas(text@.take(0)).drop_last() =~= Seq::<Seq<char>>::empty());
    }
    for c in it: text.chars()
        invariant
            it.seq() == text@,
            split_commas(text@.take(it.index() as int)).len() >= 1,
            cur@ == split_commas(text@.take(it.index() as int)).last(),
            string_views(out@) == names_of(split_commas(text@.take(it.index() as int)).drop_last()),
    {
        let ghost i = it.index() as int;
        let ghost p = split_commas(text@.take(i));
        proof {
            assert(c == text@[i]);
            assert(text@.take(i + 1).drop_last() =~= text@.take(i));
            assert(text@.take(i + 1).last() == c);
        }
        if c == ',' {
            let piece = trim(cur.as_str());
            if piece.unicode_len() > 0 {
                out.push(String::from_str(piece));
            }
            cur = String::new();
            proof {
                let np = p.push(Seq::empty());
                assert(np.drop_last() =~= p);
                assert(p =~= p.drop_last().push(p.last()));
                assert(string_views(out@) =~= names_of(np.drop_last()));
                assert(cur@ =~= np.last());
                lemma_split_nonempty(text@.take(i + 1));
            }
        } else {
            push_char(&mut cur, c);
            proof {
                let np = p.update(p.len() - 1, p.last().push(c));
                assert(np.drop_last() =~= p.drop_last());
                lemma_split_nonempty(text@.take(i + 1));
            }
        }
    }
    let ghost p = split_commas(text@);
    proof {
        assert(text@.take(text@.len() as int) =~= text@);
        assert(p =~= p.drop_last().push(p.last()));
    }
    let piece = trim(cur.as_str());
    if piece.unicode_len() > 0 {
        out.push(String::from_str(piece));
    }
    proof {
        assert(string_views(out@) =~= names_of(p));
    }
    out
}


/// What to do next while waiting for a command run with a time limit.
#[derive(Debug, Clone, Copy, PartialEq, Eq, Structural)]
pub enum PollStep {
    /// The command has exited: collect its output.
    Collect,
    /// The time limit has passed: kill the command and fail.
    Kill,
    /// Wait a little and look again.
    Wait,
}

/// The next step, given whether the command has exited and the time spent
/// so far against the limit (both in nanoseconds).
pub fn poll_step(exited: bool, elapsed_ns: u128, timeout_ns: u128) -> (r: PollStep)
    ensures
        exited ==> r == PollStep::Collect,
        !exited && elapsed_ns > timeout_ns ==> r == PollStep::Kill,
        !exited && elapsed_ns <= timeout_ns ==> r == PollStep::Wait,
{
    if exited {
        PollStep::Collect
    } else if elapsed_ns > timeout_ns {
        PollStep::Kill
    } else {
        PollStep::Wait
    }
}

} // verus!
