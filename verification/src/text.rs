//! Text substitution and decimal numbers.

use vstd::prelude::*;

verus! {

/// Whether `pattern` stands in `text` at position `i`.
pub open spec fn occurs_at(text: Seq<char>, pattern: Seq<char>, i: int) -> bool {
    &&& 0 <= i
    &&& i + pattern.len() <= text.len()
    &&& text.subrange(i, i + pattern.len()) == pattern
}

/// `text` with every occurrence of `from` replaced by `to`, found from the left and without
/// overlap.
pub open spec fn replaced(text: Seq<char>, from: Seq<char>, to: Seq<char>) -> Seq<char>
    decreases text.len(),
{
    if text.len() == 0 || from.len() == 0 {
        text
    } else if occurs_at(text, from, 0) {
        to + replaced(text.skip(from.len() as int), from, to)
    } else {
        seq![text[0]] + replaced(text.skip(1), from, to)
    }
}

/// The decimal digit `d`.
pub open spec fn digit(d: nat) -> char {
    ('0' as nat + d) as char
}

/// `n` in decimal notation.
pub open spec fn decimal(n: nat) -> Seq<char>
    decreases n,
{
    if n < 10 {
        seq![digit(n)]
    } else {
        decimal(n / 10).push(digit(n % 10))
    }
}

/// The characters of a text.
fn characters(text: &str) -> (chars: Vec<char>)
    ensures
        chars@ == text@,
{
    let mut chars: Vec<char> = Vec::new();
    for c in it: text.chars()
        invariant
            it.seq() == text@,
            chars@ =~= text@.take(it.index() as int),
    {
        chars.push(c);
    }
    proof {
        assert(text@.take(text@.len() as int) =~= text@);
    }
    chars
}

/// Whether `pattern` stands in `text` at position `i`.
fn found_at(text: &Vec<char>, pattern: &Vec<char>, i: usize) -> (found: bool)
    requires
        i <= text@.len(),
    ensures
        found == occurs_at(text@, pattern@, i as int),
{
    let total: usize = text.len();
    let len: usize = pattern.len();
    if len > total - i {
        return false;
    }
    let mut j: usize = 0;
    while j < len
        invariant
            j <= len == pattern@.len(),
            i + len <= total == text@.len(),
            forall|k: int| 0 <= k < j ==> #[trigger] pattern@[k] == text@[i + k],
        decreases len - j,
    {
        if text[i + j] != pattern[j] {
            proof {
                assert(text@.subrange(i as int, i + len)[j as int] != pattern@[j as int]);
            }
            return false;
        }
        j += 1;
    }
    proof {
        assert(text@.subrange(i as int, i + len) =~= pattern@);
    }
    true
}

/// `text` with every occurrence of `from` replaced by `to`.
pub fn replace_all(text: &str, from: &str, to: &str) -> (result: String)
    requires
        from@.len() > 0,
    ensures
        result@ == replaced(text@, from@, to@),
{
    let chars: Vec<char> = characters(text);
    let pattern: Vec<char> = characters(from);
    let len: usize = chars.len();
    let mut result: String = String::new();
    // What stands between `copied` and `i` is kept as it is, and copied in one go.
    let mut copied: usize = 0;
    let mut i: usize = 0;
    proof {
        assert(text@.skip(0) =~= text@);
        assert(text@.subrange(0, 0) =~= Seq::empty());
        assert(result@ + text@.subrange(0, 0) + replaced(text@, from@, to@) =~= replaced(
            text@,
            from@,
            to@,
        ));
    }
    while i < len
        invariant
            copied <= i <= len == text@.len(),
            chars@ == text@,
            pattern@ == from@,
            from@.len() > 0,
            result@ + text@.subrange(copied as int, i as int) + replaced(
                text@.skip(i as int),
                from@,
                to@,
            ) == replaced(text@, from@, to@),
        decreases len - i,
    {
        let ghost rest = text@.skip(i as int);
        let ghost kept = text@.subrange(copied as int, i as int);
        let found: bool = found_at(&chars, &pattern, i);
        proof {
            let n = from@.len() as int;
            if i + n <= text@.len() {
                assert(rest.subrange(0, n) =~= text@.subrange(i as int, i + n));
            }
            assert(found == occurs_at(rest, from@, 0));
        }
        if found {
            let ghost before = result@;
            result.append(text.substring_char(copied, i));
            result.append(to);
            i = i + pattern.len();
            copied = i;
            proof {
                assert(rest.skip(from@.len() as int) =~= text@.skip(i as int));
                let tail = replaced(text@.skip(i as int), from@, to@);
                assert(result@ + text@.subrange(i as int, i as int) + tail =~= before + kept + (to@
                    + tail));
            }
        } else {
            i += 1;
            proof {
                assert(rest.skip(1) =~= text@.skip(i as int));
                let tail = replaced(text@.skip(i as int), from@, to@);
                assert(text@.subrange(copied as int, i as int) =~= kept.push(rest[0]));
                assert(result@ + text@.subrange(copied as int, i as int) + tail =~= result@ + kept
                    + (seq![rest[0]] + tail));
            }
        }
    }
    let ghost before = result@;
    result.append(text.substring_char(copied, len));
    proof {
        assert(text@.skip(len as int) =~= Seq::empty());
        assert(result@ =~= before + text@.subrange(copied as int, len as int) + replaced(
            text@.skip(len as int),
            from@,
            to@,
        ));
    }
    result
}

/// The decimal digit `d`.
fn digit_text(d: usize) -> (text: &'static str)
    requires
        d < 10,
    ensures
        text@ == seq![digit(d as nat)],
{
    proof {
        reveal_strlit("0");
        reveal_strlit("1");
        reveal_strlit("2");
        reveal_strlit("3");
        reveal_strlit("4");
        reveal_strlit("5");
        reveal_strlit("6");
        reveal_strlit("7");
        reveal_strlit("8");
        reveal_strlit("9");
    }
    let text: &'static str = match d {
        0 => "0",
        1 => "1",
        2 => "2",
        3 => "3",
        4 => "4",
        5 => "5",
        6 => "6",
        7 => "7",
        8 => "8",
        _ => "9",
    };
    proof {
        assert(text@ =~= seq![digit(d as nat)]);
    }
    text
}

/// Appends `n` in decimal notation.
pub fn push_decimal(text: &mut String, n: usize)
    ensures
        final(text)@ == old(text)@ + decimal(n as nat),
    decreases n,
{
    if n >= 10 {
        push_decimal(text, n / 10);
    }
    let ghost before = text@;
    text.append(digit_text(n % 10));
    proof {
        let d = digit((n % 10) as nat);
        if n >= 10 {
            assert(old(text)@ + decimal((n / 10) as nat).push(d) =~= before + seq![d]);
        }
    }
}

} // verus!
