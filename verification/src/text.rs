//! Pieces of the messages and listings that the library writes.

use vstd::prelude::*;
use vstd::string::*;

verus! {

/// The decimal digits of `n`.
pub open spec fn decimal(n: nat) -> Seq<char>
    decreases n,
{
    if n < 10 {
        seq![digit(n)]
    } else {
        decimal(n / 10).push(digit(n % 10))
    }
}

/// The character of a digit.
pub open spec fn digit(d: nat) -> char {
    (('0' as nat) + d) as char
}

/// The items with `separator` between neighbours.
pub open spec fn joined(items: Seq<Seq<char>>, separator: Seq<char>) -> Seq<char>
    decreases items.len(),
{
    if items.len() == 0 {
        Seq::empty()
    } else if items.len() == 1 {
        items[0]
    } else {
        joined(items.drop_last(), separator) + separator + items.last()
    }
}

/// The characters of each string.
pub open spec fn texts(strings: Seq<String>) -> Seq<Seq<char>> {
    Seq::new(strings.len(), |k: int| strings[k]@)
}

/// `n` spaces.
pub open spec fn spaces(n: int) -> Seq<char> {
    Seq::new(
        if n < 0 {
            0
        } else {
            n as nat
        },
        |k: int| ' ',
    )
}

/// `text`, with spaces after it that fill it up to `width` characters.
pub open spec fn padded(text: Seq<char>, width: int) -> Seq<char> {
    text + spaces(width - text.len())
}

fn digit_text(d: usize) -> (r: &'static str)
    requires
        d < 10,
    ensures
        r@ == seq![digit(d as nat)],
{
    proof {
        reveal_strlit("0");
        reveal_strlit("1");
        reveal_strlit("2");
        reveal_strlit("3");
        reveal_strlit("4");
        reveal_strlit("5");
        reveal_strlit("6");
        reveal_strlit("7");
        reveal_strlit("8");
        reveal_strlit("9");
    }
    let r: &'static str = match d {
        0 => "0",
        1 => "1",
        2 => "2",
        3 => "3",
        4 => "4",
        5 => "5",
        6 => "6",
        7 => "7",
        8 => "8",
        _ => "9",
    };
    assert(r@ =~= seq![digit(d as nat)]);
    r
}

/// Writes `n` in decimal.
pub fn decimal_text(n: usize) -> (r: String)
    ensures
        r@ == decimal(n as nat),
    decreases n,
{
    if n < 10 {
        digit_text(n).to_owned()
    } else {
        let mut text: String = decimal_text(n / 10);
        text.append(digit_text(n % 10));
        assert(text@ =~= decimal(n as nat));
        text
    }
}

/// Writes the items with `separator` between neighbours.
pub fn join(items: &[String], separator: &str) -> (r: String)
    ensures
        r@ == joined(texts(items@), separator@),
{
    let mut out: String = String::new();
    let ghost all = texts(items@);
    let mut k: usize = 0;
    assert(out@ =~= joined(all.take(0), separator@));
    while k < items.len()
        invariant
            k <= items@.len(),
            all == texts(items@),
            out@ == joined(all.take(k as int), separator@),
        decreases items@.len() - k,
    {
        let ghost longer = all.take(k + 1);
        assert(longer.drop_last() =~= all.take(k as int));
        assert(longer.last() == items@[k as int]@);
        if k > 0 {
            out.append(separator);
        }
        out.append(items[k].as_str());
        assert(out@ =~= joined(longer, separator@));
        k = k + 1;
    }
    assert(all.take(k as int) =~= all);
    out
}

/// Writes `text` and as many spaces as it lacks to `width` characters.
pub fn pad(text: &str, width: usize) -> (r: String)
    ensures
        r@ == padded(text@, width as int),
{
    let mut out: String = text.to_owned();
    let mut len: usize = text.unicode_len();
    let ghost start = len as int;
    proof {
        reveal_strlit(" ");
    }
    assert(out@ =~= text@ + spaces(0));
    while len < width
        invariant
            start == text@.len(),
            start <= len,
            len <= width || len == start,
            out@ == text@ + spaces(len - start),
            " "@ == seq![' '],
        decreases width - len,
    {
        out.append(" ");
        assert(out@ =~= text@ + spaces(len + 1 - start));
        len = len + 1;
    }
    assert(out@ =~= padded(text@, width as int));
    out
}

/// Whether `text` contains the character `c`.
pub fn has_char(text: &str, c: char) -> (r: bool)
    ensures
        r == text@.contains(c),
{
    for x in it: text.chars()
        invariant
            it.seq() == text@,
            forall|k: int| 0 <= k < it.index() ==> #[trigger] text@[k] != c,
    {
        if x == c {
            return true;
        }
    }
    false
}

/// The number that is written with these digits.
pub open spec fn number(digits: Seq<char>) -> int
    decreases digits.len(),
{
    if digits.len() == 0 {
        0
    } else {
        10 * number(digits.drop_last()) + (digits.last() as int - '0' as int)
    }
}

/// What is written in decimal reads as the number that was written: digits only, and the
/// first one is not zero unless the number is.
pub proof fn law_decimals_read_back(n: nat)
    ensures
        decimal(n).len() > 0,
        forall|k: int| 0 <= k < decimal(n).len() ==> '0' <= #[trigger] decimal(n)[k] <= '9',
        decimal(n)[0] == '0' ==> n == 0,
        n == 0 ==> decimal(n).len() == 1,
        number(decimal(n)) == n,
    decreases n,
{
    reveal_with_fuel(number, 2);
    if n < 10 {
        assert(decimal(n).drop_last() =~= Seq::<char>::empty());
    } else {
        law_decimals_read_back(n / 10);
        let head = decimal(n / 10);
        assert(decimal(n) == head.push(digit(n % 10)));
        assert(decimal(n).drop_last() =~= head);
        assert(decimal(n)[0] == head[0]);
        assert forall|k: int| 0 <= k < decimal(n).len() implies '0' <= #[trigger] decimal(n)[k]
            <= '9' by {
            if k < head.len() {
                assert(decimal(n)[k] == head[k]);
            }
        }
    }
}

/// Joined items stand one after the other, with the separator between neighbours only.
pub proof fn law_joined_items_are_separated(
    items: Seq<Seq<char>>,
    separator: Seq<char>,
    item: Seq<char>,
)
    ensures
        joined(Seq::empty(), separator) == Seq::<char>::empty(),
        joined(seq![item], separator) == item,
        items.len() > 0 ==> joined(items.push(item), separator) == joined(items, separator)
            + separator + item,
{
    assert(items.push(item).drop_last() =~= items);
}

/// Strings stand for their characters, one for one.
pub proof fn law_strings_keep_their_texts(strings: Seq<String>)
    ensures
        texts(strings).len() == strings.len(),
        forall|k: int| 0 <= k < strings.len() ==> #[trigger] texts(strings)[k] == strings[k]@,
{
}

/// A padded text begins with the text, and the rest of the width is spaces; a text that is
/// too long for the width stays whole.
pub proof fn law_padding_is_spaces(text: Seq<char>, width: int)
    ensures
        padded(text, width).len() == if text.len() < width {
            width
        } else {
            text.len() as int
        },
        forall|k: int| 0 <= k < text.len() ==> #[trigger] padded(text, width)[k] == text[k],
        forall|k: int|
            text.len() <= k < padded(text, width).len() ==> #[trigger] padded(text, width)[k]
                == ' ',
{
}

} // verus!
