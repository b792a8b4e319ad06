use vstd::prelude::*;

verus! {

/// Appends `c` to `text`, through std's `String::push`, whose
/// documentation says that it appends the given char to the end of the
/// string.
#[verifier::external_body]
pub(crate) fn push(text: &mut String, c: char)
    ensures
        final(text)@ == old(text)@.push(c),
{
    text.push(c);
}

/// The character of a decimal digit.
pub open spec fn digit(d: int) -> char {
    if d == 0 {
        '0'
    } else if d == 1 {
        '1'
    } else if d == 2 {
        '2'
    } else if d == 3 {
        '3'
    } else if d == 4 {
        '4'
    } else if d == 5 {
        '5'
    } else if d == 6 {
        '6'
    } else if d == 7 {
        '7'
    } else if d == 8 {
        '8'
    } else {
        '9'
    }
}

/// A number written in decimal, without leading zeros.
pub open spec fn decimal(n: nat) -> Seq<char>
    decreases n,
{
    if n < 10 {
        seq![digit(n as int)]
    } else {
        decimal(n / 10).push(digit((n % 10) as int))
    }
}

fn digit_char(d: usize) -> (c: char)
    requires
        d < 10,
    ensures
        c == digit(d as int),
{
    match d {
        0 => '0',
        1 => '1',
        2 => '2',
        3 => '3',
        4 => '4',
        5 => '5',
        6 => '6',
        7 => '7',
        8 => '8',
        _ => '9',
    }
}

/// Appends `n`, written in decimal, to `text`.
pub fn push_decimal(text: &mut String, n: usize)
    ensures
        final(text)@ == old(text)@ + decimal(n as nat),
{
    let mut v = n;
    let mut reversed: Vec<char> = Vec::new();
    while v >= 10
        invariant
            decimal(n as nat) == decimal(v as nat) + reversed@.reverse(),
        decreases v,
    {
        let ghost before = reversed@;
        reversed.push(digit_char(v % 10));
        proof {
            assert(reversed@.reverse() =~= seq![digit((v % 10) as int)] + before.reverse());
            assert(decimal(v as nat) == decimal((v / 10) as nat).push(digit((v % 10) as int)));
            assert(decimal(n as nat) =~= decimal((v / 10) as nat) + reversed@.reverse());
        }
        v = v / 10;
    }
    let ghost before = reversed@;
    reversed.push(digit_char(v));
    proof {
        assert(reversed@.reverse() =~= seq![digit(v as int)] + before.reverse());
        assert(decimal(n as nat) =~= reversed@.reverse());
    }
    let ghost start = text@;
    let mut i = reversed.len();
    while i > 0
        invariant
            i <= reversed@.len(),
            text@ == start + reversed@.reverse().subrange(0, reversed@.len() - i),
        decreases i,
    {
        i = i - 1;
        push(text, reversed[i]);
        proof {
            let r = reversed@.reverse();
            assert(r[reversed@.len() - 1 - i] == reversed@[i as int]);
            assert(text@ =~= start + r.subrange(0, reversed@.len() - i));
        }
    }
    proof {
        assert(reversed@.reverse().subrange(0, reversed@.len() as int) =~= reversed@.reverse());
    }
}

/// Values that can be written out as text: the names of roles and labels.
pub trait Render {
    /// The text of the value.
    spec fn rendered(&self) -> Seq<char>;

    /// Appends the text of the value to `text`.
    fn render(&self, text: &mut String)
        ensures
            final(text)@ == old(text)@ + self.rendered(),
    ;
}

impl Render for String {
    open spec fn rendered(&self) -> Seq<char> {
        self@
    }

    fn render(&self, text: &mut String) {
        text.append(self.as_str());
    }
}

impl Render for usize {
    open spec fn rendered(&self) -> Seq<char> {
        decimal(*self as nat)
    }

    fn render(&self, text: &mut String) {
        push_decimal(text, *self);
    }
}

} // verus!
