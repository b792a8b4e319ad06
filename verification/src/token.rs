use vstd::prelude::*;

verus! {

/// A kind of token that error messages can name.
pub trait TokenId: Copy {
    /// How error messages name this kind of token.
    fn name(self) -> &'static str;
}

/// The first `i` names, separated by commas.
pub open spec fn commas(names: Seq<Seq<char>>, i: int) -> Seq<char>
    decreases i,
{
    if i <= 1 {
        names[0]
    } else {
        commas(names, i - 1) + ", "@ + names[i - 1]
    }
}

/// A list of names as a sentence says it: `a`, `a or b`, `a, b or c`.
pub open spec fn listing(names: Seq<Seq<char>>) -> Seq<char> {
    if names.len() <= 1 {
        names[0]
    } else {
        commas(names, names.len() - 1) + " or "@ + names[names.len() - 1]
    }
}

/// Appends the names in `names`, as `listing` says them, to `text`.
pub fn push_listing(text: &mut String, names: &Vec<&'static str>)
    requires
        names@.len() > 0,
    ensures
        final(text)@ == old(text)@ + listing(names@.map_values(|n: &'static str| n@)),
{
    let ghost views = names@.map_values(|n: &'static str| n@);
    let ghost start = text@;
    let size = names.len();
    text.append(names[0]);
    if size > 1 {
        let mut i: usize = 1;
        while i < size - 1
            invariant
                size == names@.len(),
                views == names@.map_values(|n: &'static str| n@),
                1 <= i <= size - 1,
                text@ == start + commas(views, i as int),
            decreases size - 1 - i,
        {
            text.append(", ");
            text.append(names[i]);
            proof {
                assert(views[i as int] == names@[i as int]@);
                assert(text@ =~= start + commas(views, i + 1));
            }
            i = i + 1;
        }
        text.append(" or ");
        text.append(names[size - 1]);
        proof {
            assert(views[size - 1] == names@[size - 1]@);
            assert(text@ =~= start + listing(views));
        }
    } else {
        proof {
            assert(text@ =~= start + listing(views));
        }
    }
}

/// The kinds of token that were expected where something else was found.
#[derive(Debug)]
pub struct TokenError(pub Vec<&'static str>);

impl TokenError {
    /// `expected` and the names, as `listing` says them.
    pub fn message(&self) -> (message: String)
        requires
            self.0@.len() > 0,
        ensures
            message@ == "expected "@ + listing(self.0@.map_values(|n: &'static str| n@)),
    {
        let mut message = String::from_str("expected ");
        push_listing(&mut message, &self.0);
        message
    }
}

} // verus!
