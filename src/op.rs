//! The comparison operators of `compare`.
use vstd::prelude::*;
use vstd::string::StringSliceAdditionalSpecFns;

verus! {

/// A comparison operator.
#[derive(Debug, Clone, Copy, PartialEq, Eq, Structural)]
pub enum Op {
    Eq,
    Ne,
    Gt,
    Lt,
    Gte,
    Lte,
}

/// The bytes of the operator's symbol: `==`, `!=`, `>`, `<`, `>=`, `<=`.
pub open spec fn symbol(op: Op) -> Seq<u8> {
    match op {
        Op::Eq => seq![61u8, 61u8],
        Op::Ne => seq![33u8, 61u8],
        Op::Gt => seq![62u8],
        Op::Lt => seq![60u8],
        Op::Gte => seq![62u8, 61u8],
        Op::Lte => seq![60u8, 61u8],
    }
}

impl Op {
    /// The operator whose symbol is `s`, if any.
    pub fn from_symbol(s: &str) -> (r: Option<Op>)
        ensures
            forall|op: Op| r == Some(op) <==> symbol(op) == s.spec_bytes(),
    {
        let b = s.as_bytes();
        let r = if b.len() == 2 && b[1] == 61u8 {
            if b[0] == 61u8 {
                Some(Op::Eq)
            } else if b[0] == 33u8 {
                Some(Op::Ne)
            } else if b[0] == 62u8 {
                Some(Op::Gte)
            } else if b[0] == 60u8 {
                Some(Op::Lte)
            } else {
                None
            }
        } else if b.len() == 1 {
            if b[0] == 62u8 {
                Some(Op::Gt)
            } else if b[0] == 60u8 {
                Some(Op::Lt)
            } else {
                None
            }
        } else {
            None
        };
        proof {
            assert forall|op: Op| r == Some(op) <==> symbol(op) == b@ by {
                if b@.len() == 2 {
                    assert(b@ =~= seq![b@[0], b@[1]]);
                } else if b@.len() == 1 {
                    assert(b@ =~= seq![b@[0]]);
                }
                if symbol(op) == b@ {
                    assert(symbol(op)[0] == b@[0]);
                    if symbol(op).len() == 2 {
                        assert(symbol(op)[1] == b@[1]);
                    }
                }
            }
        }
        r
    }

    /// Whether the operator orders its operands (anything but `==` and `!=`).
    pub open spec fn spec_is_ordering(self) -> bool {
        !(self is Eq || self is Ne)
    }

    /// Whether the operator orders its operands, rather than testing equality.
    pub fn is_ordering(&self) -> (r: bool)
        ensures
            r == self.spec_is_ordering(),
    {
        match self {
            Op::Eq | Op::Ne => false,
            _ => true,
        }
    }
}

} // verus!
