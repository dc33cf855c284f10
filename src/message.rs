use vstd::prelude::*;
use vstd::string::*;
use crate::text::{signed_decimal, signed_decimal_string};

verus! {

/// A message that an actor applies to its value.
#[derive(Debug, PartialEq, Eq, Structural, Clone, Copy)]
pub enum Message {
    Increment(i32),
    Decrement(i32),
}

impl Message {
    /// The signed change that the message asks for.
    pub open spec fn delta(self) -> int {
        match self {
            Message::Increment(n) => n as int,
            Message::Decrement(n) => -(n as int),
        }
    }

    /// The value after applying the message to `value`, when it fits in an `i32`.
    pub open spec fn applied_to(self, value: int) -> Option<int> {
        let r = value + self.delta();
        if i32::MIN <= r <= i32::MAX {
            Some(r)
        } else {
            None
        }
    }

    /// The message as shown to a user: `Increment(n)` or `Decrement(n)`.
    pub open spec fn text(self) -> Seq<char> {
        match self {
            Message::Increment(n) => "Increment("@ + signed_decimal(n as int) + ")"@,
            Message::Decrement(n) => "Decrement("@ + signed_decimal(n as int) + ")"@,
        }
    }

    pub fn to_string(&self) -> (r: String)
        ensures
            r@ == self.text(),
    {
        proof {
            reveal_strlit("Increment(");
            reveal_strlit("Decrement(");
            reveal_strlit(")");
        }
        let (name, n) = match self {
            Message::Increment(n) => ("Increment(", *n),
            Message::Decrement(n) => ("Decrement(", *n),
        };
        let mut r = String::from_str(name);
        r.append(signed_decimal_string(n).as_str());
        r.append(")");
        r
    }
}

} // verus!
