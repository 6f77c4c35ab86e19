//! A singly linked chain of values, newest last.
use vstd::prelude::*;

verus! {

/// A chain: a single value, or a link that adds a value after a chain.
#[derive(Debug)]
pub enum Element<T> {
    Data(T),
    Link(Link<T>),
}

/// A value added after the chain `prev`.
#[derive(Debug)]
pub struct Link<T> {
    pub prev: Box<Element<T>>,
    pub current: T,
}

impl<T> Element<T> {
    /// The values of the chain, oldest first.
    pub open spec fn values(self) -> Seq<T>
        decreases self,
    {
        match self {
            Element::Data(d) => seq![d],
            Element::Link(ln) => ln.prev.values().push(ln.current),
        }
    }
}

impl Element<String> {
    /// Whether some value of the chain equals `val`.
    pub fn contains(&self, val: &String) -> (r: bool)
        ensures
            r == exists|i: int| 0 <= i < self.values().len() && (#[trigger] self.values()[i])@ == val@,
        decreases self,
    {
        match self {
            Element::Link(ln) => {
                if ln.current == *val {
                    proof {
                        let n = self.values().len() - 1;
                        assert(self.values()[n] == ln.current);
                    }
                    return true;
                }
                let r = ln.prev.contains(val);
                proof {
                    let pv = ln.prev.values();
                    assert(self.values() == pv.push(ln.current));
                    if r {
                        let i = choose|i: int| 0 <= i < pv.len() && (#[trigger] pv[i])@ == val@;
                        assert(self.values()[i] == pv[i]);
                    } else {
                        assert forall|i: int| 0 <= i < self.values().len() implies (#[trigger] self.values()[i])@
                            != val@ by {
                            if i < pv.len() {
                                assert(self.values()[i] == pv[i]);
                            }
                        }
                    }
                }
                r
            },
            Element::Data(data) => {
                let r = *data == *val;
                proof {
                    assert(self.values()[0] == *data);
                }
                r
            },
        }
    }
}

} // verus!
