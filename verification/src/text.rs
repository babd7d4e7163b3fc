//! Text for keys and messages.

use vstd::prelude::*;
use vstd::string::StringExecFns;

verus! {

/// What `String::from_utf8_lossy` makes of bytes that are not UTF-8.
pub uninterp spec fn replaced_text(bytes: Seq<u8>) -> Seq<char>;

/// The text of a byte string: its characters where it is UTF-8, and otherwise
/// the text in which replacement characters stand for what is not.
pub open spec fn text_of(bytes: Seq<u8>) -> Seq<char> {
    if vstd::utf8::valid_utf8(bytes) {
        vstd::utf8::decode_utf8(bytes)
    } else {
        replaced_text(bytes)
    }
}

/// Calls `String::from_utf8_lossy`. Claimed of it: bytes that are UTF-8 come
/// back as the characters they encode; what it makes of other bytes depends on
/// those bytes alone.
#[verifier::external_body]
pub(crate) fn utf8_lossy(bytes: &[u8]) -> (r: String)
    ensures
        r@ == (if vstd::utf8::valid_utf8(bytes@) {
            vstd::utf8::decode_utf8(bytes@)
        } else {
            replaced_text(bytes@)
        }),
{
    String::from_utf8_lossy(bytes).into_owned()
}

/// The texts of a list of byte strings, joined by slashes.
pub open spec fn slash_joined(rows: Seq<Seq<u8>>) -> Seq<char>
    decreases rows.len(),
{
    if rows.len() == 0 {
        Seq::empty()
    } else if rows.len() == 1 {
        text_of(rows[0])
    } else {
        slash_joined(rows.drop_last()).push('/') + text_of(rows.last())
    }
}

/// Joins the texts of byte strings by slashes.
pub fn join_rows(rows: &Vec<Vec<u8>>) -> (r: String)
    ensures
        r@ == slash_joined(crate::path::rows(rows@)),
{
    let mut out = String::new();
    let ghost all = crate::path::rows(rows@);
    let mut i: usize = 0;
    proof {
        reveal_strlit("/");
        assert(all.take(0) =~= Seq::<Seq<u8>>::empty());
    }
    while i < rows.len()
        invariant
            i <= rows.len(),
            all == crate::path::rows(rows@),
            "/"@ == seq!['/'],
            out@ == slash_joined(all.take(i as int)),
        decreases rows.len() - i,
    {
        proof {
            assert(all.take(i + 1).drop_last() =~= all.take(i as int));
            assert(all.take(i + 1).last() == rows@[i as int]@);
        }
        if i > 0 {
            out.append("/");
        }
        let part = utf8_lossy(rows[i].as_slice());
        out.append(part.as_str());
        i += 1;
        assert(out@ =~= slash_joined(all.take(i as int)));
    }
    assert(all.take(all.len() as int) =~= all);
    out
}

/// One text behind another.
pub fn concat_text(front: &str, back: &str) -> (r: String)
    ensures
        r@ == front@ + back@,
{
    let mut r = front.to_owned();
    r.append(back);
    r
}

/// The character of a decimal digit.
pub open spec fn digit_char(d: int) -> char {
    (d + 0x30) as char
}

/// A number in decimal.
pub open spec fn decimal(n: nat) -> Seq<char>
    decreases n,
{
    if n < 10 {
        seq![digit_char(n as int)]
    } else {
        decimal(n / 10).push(digit_char((n % 10) as int))
    }
}

fn digit_text(d: usize) -> (r: &'static str)
    requires
        d < 10,
    ensures
        r@ == seq![digit_char(d as int)],
{
    proof {
        reveal_strlit("0");
        reveal_strlit("1");
        reveal_strlit("2");
        reveal_strlit("3");
        reveal_strlit("4");
        reveal_strlit("5");
        reveal_strlit("6");
        reveal_strlit("7");
        reveal_strlit("8");
        reveal_strlit("9");
    }
    let r = match d {
        0 => "0",
        1 => "1",
        2 => "2",
        3 => "3",
        4 => "4",
        5 => "5",
        6 => "6",
        7 => "7",
        8 => "8",
        _ => "9",
    };
    assert(r@ =~= seq![digit_char(d as int)]);
    r
}

/// Writes a number in decimal.
pub fn decimal_text(n: usize) -> (r: String)
    ensures
        r@ == decimal(n as nat),
    decreases n,
{
    let mut r = if n < 10 {
        String::new()
    } else {
        decimal_text(n / 10)
    };
    r.append(digit_text(n % 10));
    assert(r@ =~= decimal(n as nat));
    r
}

/// Texts are joined by single slashes: nothing stands in front of the first or behind the
/// last, and bytes that are text come as they are.
pub proof fn lemma_slash_joined(rows: Seq<Seq<u8>>, last: Seq<u8>)
    ensures
        slash_joined(Seq::empty()).len() == 0,
        slash_joined(seq![last]) == text_of(last),
        rows.len() > 0 ==> slash_joined(rows.push(last)) == slash_joined(rows) + seq!['/']
            + text_of(last),
        vstd::utf8::valid_utf8(last) ==> text_of(last) == vstd::utf8::decode_utf8(last),
        !vstd::utf8::valid_utf8(last) ==> text_of(last) == replaced_text(last),
{
    assert(rows.push(last).drop_last() =~= rows);
    if rows.len() > 0 {
        assert(slash_joined(rows.push(last)) =~= slash_joined(rows) + seq!['/'] + text_of(last));
    }
}

/// The number that decimal digits stand for.
pub open spec fn value_of(digits: Seq<char>) -> int
    decreases digits.len(),
{
    if digits.len() == 0 {
        0
    } else {
        10 * value_of(digits.drop_last()) + (digits.last() as int - '0' as int)
    }
}

/// A number is written in digits that stand for it, without a zero in front.
pub proof fn lemma_decimal(n: nat)
    ensures
        decimal(n).len() > 0,
        value_of(decimal(n)) == n,
        decimal(n)[0] == '0' ==> decimal(n).len() == 1,
        forall|i: int|
            #![trigger decimal(n)[i]]
            0 <= i < decimal(n).len() ==> '0' <= decimal(n)[i] <= '9',
    decreases n,
{
    assert(value_of(Seq::empty()) == 0);
    if n < 10 {
        assert(decimal(n).drop_last() =~= Seq::empty());
        assert(decimal(n).last() as int == n + 0x30);
    } else {
        let front = decimal(n / 10);
        lemma_decimal(n / 10);
        assert(decimal(n).drop_last() =~= front);
        assert(decimal(n)[0] == front[0]);
        if front[0] == '0' {
            assert(front.drop_last() =~= Seq::empty());
            assert(value_of(front) == 0);
        }
        assert forall|i: int| #![trigger decimal(n)[i]] 0 <= i < decimal(n).len() implies '0'
            <= decimal(n)[i] <= '9' by {
            if i < front.len() {
                assert(decimal(n)[i] == front[i]);
            }
        }
    }
}

} // verus!
