//! Text layout: decimal numbers and padding.

use vstd::prelude::*;

verus! {

/// The character of a decimal digit.
pub open spec fn digit(d: nat) -> char {
    (('0' as u8) + d) as char
}

/// A number in decimal notation.
pub open spec fn decimal(n: nat) -> Seq<char>
    decreases n,
{
    if n < 10 {
        seq![digit(n)]
    } else {
        decimal(n / 10).push(digit(n % 10))
    }
}

/// `n` times the same character.
pub open spec fn repeated(c: char, n: nat) -> Seq<char> {
    Seq::new(n, |i: int| c)
}

/// `text` aligned to the right within `width` characters; longer text stays as it is.
pub open spec fn padded_left(text: Seq<char>, width: nat, fill: char) -> Seq<char> {
    if text.len() >= width {
        text
    } else {
        repeated(fill, (width - text.len()) as nat) + text
    }
}

/// `text` aligned to the left within `width` characters; longer text stays as it is.
pub open spec fn padded_right(text: Seq<char>, width: nat) -> Seq<char> {
    if text.len() >= width {
        text
    } else {
        text + repeated(' ', (width - text.len()) as nat)
    }
}

/// Writes a decimal digit.
fn write_digit(d: u128) -> (r: &'static str)
    requires
        d < 10,
    ensures
        r@ == seq![digit(d as nat)],
{
    proof {
        reveal_strlit("0");
        reveal_strlit("1");
        reveal_strlit("2");
        reveal_strlit("3");
        reveal_strlit("4");
        reveal_strlit("5");
        reveal_strlit("6");
        reveal_strlit("7");
        reveal_strlit("8");
        reveal_strlit("9");
    }
    let r = if d == 0 {
        "0"
    } else if d == 1 {
        "1"
    } else if d == 2 {
        "2"
    } else if d == 3 {
        "3"
    } else if d == 4 {
        "4"
    } else if d == 5 {
        "5"
    } else if d == 6 {
        "6"
    } else if d == 7 {
        "7"
    } else if d == 8 {
        "8"
    } else {
        "9"
    };
    assert(r@ =~= seq![digit(d as nat)]);
    r
}

/// Writes a number in decimal notation.
pub fn write_decimal(n: u128) -> (r: String)
    ensures
        r@ == decimal(n as nat),
    decreases n,
{
    if n < 10 {
        write_digit(n).to_owned()
    } else {
        let mut text = write_decimal(n / 10);
        text.append(write_digit(n % 10));
        assert(text@ =~= decimal(n as nat));
        text
    }
}

/// Aligns text to the right, filling up with `fill`, a string of one character.
pub fn pad_left(text: &str, width: usize, fill: &str) -> (r: String)
    requires
        fill@.len() == 1,
    ensures
        r@ == padded_left(text@, width as nat, fill@[0]),
{
    let len: usize = text.unicode_len();
    let mut padded = String::new();
    let mut i: usize = len;
    while i < width
        invariant
            len == text@.len(),
            fill@.len() == 1,
            len <= i,
            i <= width || i == len,
            padded@ == repeated(fill@[0], (i - len) as nat),
        decreases width - i,
    {
        padded.append(fill);
        i = i + 1;
        assert(padded@ =~= repeated(fill@[0], (i - len) as nat));
    }
    padded.append(text);
    assert(padded@ =~= padded_left(text@, width as nat, fill@[0]));
    padded
}

/// Aligns text to the left, filling up with spaces.
pub fn pad_right(text: &str, width: usize) -> (r: String)
    ensures
        r@ == padded_right(text@, width as nat),
{
    let len: usize = text.unicode_len();
    let mut padded = text.to_owned();
    let mut i: usize = len;
    proof {
        reveal_strlit(" ");
        assert(padded@ =~= text@ + repeated(' ', 0));
    }
    while i < width
        invariant
            " "@ == seq![' '],
            len == text@.len(),
            len <= i,
            i <= width || i == len,
            padded@ == text@ + repeated(' ', (i - len) as nat),
        decreases width - i,
    {
        padded.append(" ");
        i = i + 1;
        assert(padded@ =~= text@ + repeated(' ', (i - len) as nat));
    }
    assert(padded@ =~= padded_right(text@, width as nat));
    padded
}

/// Padding makes text at least as wide as asked for, and never cuts it.
pub proof fn law_padding_only_adds(text: Seq<char>, width: nat, fill: char)
    ensures
        padded_left(text, width, fill).len() == if text.len() >= width {
            text.len()
        } else {
            width
        },
        padded_right(text, width).len() == padded_left(text, width, fill).len(),
        padded_left(text, width, fill).skip(
            padded_left(text, width, fill).len() - text.len(),
        ) == text,
        padded_right(text, width).take(text.len() as int) == text,
{
    assert(padded_left(text, width, fill).skip(
        padded_left(text, width, fill).len() - text.len(),
    ) =~= text);
    assert(padded_right(text, width).take(text.len() as int) =~= text);
}

/// The decimal notation of a number reads back as that number. It consists of digits, and starts
/// with a zero only where it is that zero alone.
pub proof fn law_decimal_reads_back(n: nat)
    ensures
        decimal(n).len() > 0,
        forall|i: int| 0 <= i < decimal(n).len() ==> '0' <= #[trigger] decimal(n)[i] <= '9',
        decimal(n)[0] == '0' ==> decimal(n).len() == 1,
        decimal(n).fold_left(0int, |value: int, c: char| value * 10 + (c as int - '0' as int)) == n,
    decreases n,
{
    let read = |value: int, c: char| value * 10 + (c as int - '0' as int);
    let text = decimal(n);
    reveal_with_fuel(Seq::fold_left, 2);
    if n < 10 {
        assert(text.drop_last() =~= Seq::empty());
        assert(text.fold_left(0int, read) == n);
    } else {
        law_decimal_reads_back(n / 10);
        assert(text.drop_last() =~= decimal(n / 10));
        assert(decimal(n / 10).fold_left(0int, read) == n / 10);
        assert(text.fold_left(0int, read) == n);
        if decimal(n / 10)[0] == '0' {
            let front = decimal(n / 10);
            assert(front.drop_last() =~= Seq::empty());
            assert(front.fold_left(0int, read) == read(0, front[0]));
            assert(n / 10 == 0);
        }
    }
}

/// Padding keeps the text whole, at the right or at the left end, and fills every other place
/// with the fill character.
pub proof fn law_padding_fills_the_rest(text: Seq<char>, width: nat, fill: char)
    ensures
        forall|i: int|
            0 <= i < padded_left(text, width, fill).len() - text.len() ==> #[trigger] padded_left(
                text,
                width,
                fill,
            )[i] == fill,
        forall|i: int|
            text.len() <= i < padded_right(text, width).len() ==> #[trigger] padded_right(
                text,
                width,
            )[i] == ' ',
{
}

} // verus!
