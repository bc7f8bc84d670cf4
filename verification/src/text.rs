//! What is taken as text, and numbers and lists as text.
use vstd::prelude::*;

verus! {

/// A value that can be taken as text.
pub trait Text: Sized {
    /// The text.
    spec fn shown(&self) -> Seq<char>;

    /// Hands the text over.
    fn into_text(self) -> (text: String)
        ensures
            text@ == self.shown(),
    ;
}

impl Text for String {
    open spec fn shown(&self) -> Seq<char> {
        self@
    }

    fn into_text(self) -> (text: String) {
        self
    }
}

impl<'a> Text for &'a str {
    open spec fn shown(&self) -> Seq<char> {
        self@
    }

    fn into_text(self) -> (text: String) {
        self.to_owned()
    }
}

impl<'a> Text for &'a String {
    open spec fn shown(&self) -> Seq<char> {
        self@
    }

    fn into_text(self) -> (text: String) {
        self.clone()
    }
}

/// The decimal digit of a number below ten.
pub open spec fn digit(n: int) -> char {
    if n == 0 {
        '0'
    } else if n == 1 {
        '1'
    } else if n == 2 {
        '2'
    } else if n == 3 {
        '3'
    } else if n == 4 {
        '4'
    } else if n == 5 {
        '5'
    } else if n == 6 {
        '6'
    } else if n == 7 {
        '7'
    } else if n == 8 {
        '8'
    } else {
        '9'
    }
}

/// A number in decimal, without leading zeros.
pub open spec fn decimal(n: int) -> Seq<char>
    decreases n,
{
    if n < 10 {
        seq![digit(n)]
    } else {
        decimal(n / 10) + seq![digit(n % 10)]
    }
}

fn digit_text(n: u64) -> (text: &'static str)
    requires
        n < 10,
    ensures
        text@ == seq![digit(n as int)],
{
    proof {
        reveal_strlit("0");
        reveal_strlit("1");
        reveal_strlit("2");
        reveal_strlit("3");
        reveal_strlit("4");
        reveal_strlit("5");
        reveal_strlit("6");
        reveal_strlit("7");
        reveal_strlit("8");
        reveal_strlit("9");
    }
    let text = match n {
        0 => "0",
        1 => "1",
        2 => "2",
        3 => "3",
        4 => "4",
        5 => "5",
        6 => "6",
        7 => "7",
        8 => "8",
        _ => "9",
    };
    assert(text@ =~= seq![digit(n as int)]);
    text
}

/// Writes a number in decimal.
pub fn decimal_text(n: u64) -> (text: String)
    ensures
        text@ == decimal(n as int),
    decreases n,
{
    if n < 10 {
        digit_text(n).to_owned()
    } else {
        let mut text = decimal_text(n / 10);
        text.append(digit_text(n % 10));
        text
    }
}

/// The texts of a list of strings.
pub open spec fn texts(list: Seq<String>) -> Seq<Seq<char>> {
    Seq::new(list.len(), |i: int| list[i]@)
}

/// The first `n` texts, separated by a comma and a space.
pub open spec fn listed(parts: Seq<Seq<char>>, n: int) -> Seq<char>
    decreases n,
{
    if n <= 0 {
        Seq::empty()
    } else if n == 1 {
        parts[0]
    } else {
        listed(parts, n - 1) + ", "@ + parts[n - 1]
    }
}

/// A list of texts, or a note that there is none.
pub open spec fn listed_or_none(parts: Seq<Seq<char>>) -> Seq<char> {
    if parts.len() == 0 {
        "(none)"@
    } else {
        listed(parts, parts.len() as int)
    }
}

/// Writes a list of texts separated by a comma and a space; an empty one as `(none)`.
pub fn list_text(parts: &Vec<String>) -> (text: String)
    ensures
        text@ == listed_or_none(texts(parts@)),
{
    if parts.len() == 0 {
        return "(none)".to_owned();
    }
    let mut text = parts[0].clone();
    let mut i: usize = 1;
    while i < parts.len()
        invariant
            1 <= i <= parts@.len(),
            text@ == listed(texts(parts@), i as int),
        decreases parts@.len() - i,
    {
        text.append(", ");
        text.append(parts[i].as_str());
        i += 1;
    }
    text
}

} // verus!
