//! Descriptors for the signatures the host exposes to scripts: the shape
//! a receiver takes, and the import path under which a host type is
//! addressed.

use vstd::prelude::*;
use vstd::std_specs::iter::IteratorSpec;

verus! {

/// How a host function takes its receiver.
#[derive(Clone, Copy, PartialEq, Eq, Structural, Debug)]
pub enum SelfType {
    /// By value.
    Self_,
    /// By shared reference.
    RefSelf,
    /// By mutable reference.
    MutSelf,
}

impl SelfType {
    /// Whether the receiver is taken by any kind of reference.
    pub fn is_any_ref(self) -> (r: bool)
        ensures
            r == (self is RefSelf || self is MutSelf),
    {
        match self {
            SelfType::Self_ => false,
            SelfType::RefSelf => true,
            SelfType::MutSelf => true,
        }
    }

    /// Whether the receiver is taken by mutable reference.
    pub fn is_mut_ref(self) -> (r: bool)
        ensures
            r == (self is MutSelf),
    {
        match self {
            SelfType::Self_ => false,
            SelfType::RefSelf => false,
            SelfType::MutSelf => true,
        }
    }
}

/// Relies on String::push: appends the given character to the end of the
/// string, so the character sequence grows by exactly that character.
pub assume_specification[ String::push ](s: &mut String, c: char)
    ensures
        final(s)@ == old(s)@.push(c),
;

/// Whether `head` starts with the characters of `prefix`.
pub open spec fn leads_with(head: Seq<char>, prefix: Seq<char>) -> bool {
    prefix.len() <= head.len() && head.take(prefix.len() as int) == prefix
}

/// The head component rewritten when it starts with the prefix: the
/// replacement followed by whatever comes after the prefix, or nothing
/// when the prefix does not lead.
fn replaced_head(head: &String, prefix: &String, replacement: &String) -> (r: Option<String>)
    ensures
        match r {
            Some(out) => leads_with(head@, prefix@) && out@ == replacement@ + head@.skip(
                prefix@.len() as int,
            ),
            None => !leads_with(head@, prefix@),
        },
{
    let mut hc = head.as_str().chars();
    let mut pc = prefix.as_str().chars();
    let ghost mut i: int = 0;
    loop
        invariant
            0 <= i <= prefix@.len(),
            i <= head@.len(),
            pc.remaining() == prefix@.skip(i),
            hc.remaining() == head@.skip(i),
            head@.take(i) == prefix@.take(i),
        ensures
            leads_with(head@, prefix@),
            hc.remaining() == head@.skip(prefix@.len() as int),
        decreases prefix@.len() - i,
    {
        let ghost pc_rest = pc.remaining();
        let ghost hc_rest = hc.remaining();
        match pc.next() {
            None => {
                proof {
                    assert(pc_rest.len() == 0);
                    assert(i == prefix@.len());
                    assert(head@.take(prefix@.len() as int) =~= prefix@.take(
                        prefix@.len() as int,
                    ));
                    assert(prefix@.take(prefix@.len() as int) =~= prefix@);
                }
                break ;
            },
            Some(p) => {
                proof {
                    assert(pc_rest.len() > 0);
                    assert(p == prefix@.skip(i)[0]);
                    assert(p == prefix@[i]);
                    assert(pc.remaining() =~= prefix@.skip(i + 1));
                }
                match hc.next() {
                    None => {
                        proof {
                            assert(hc_rest.len() == 0);
                            assert(i == head@.len());
                            assert(head@.len() < prefix@.len());
                        }
                        return None;
                    },
                    Some(c) => {
                        proof {
                            assert(hc_rest.len() > 0);
                            assert(c == head@.skip(i)[0]);
                            assert(c == head@[i]);
                            assert(hc.remaining() =~= head@.skip(i + 1));
                        }
                        if c != p {
                            proof {
                                if leads_with(head@, prefix@) {
                                    assert(head@.take(prefix@.len() as int)[i] == prefix@[i]);
                                    assert(head@[i] == prefix@[i]);
                                }
                            }
                            return None;
                        }
                        proof {
                            assert(head@.take(i + 1) =~= prefix@.take(i + 1));
                            i = i + 1;
                        }
                    },
                }
            },
        }
    }
    let mut out = replacement.clone();
    let ghost mut j: int = 0;
    loop
        invariant
            0 <= j,
            prefix@.len() + j <= head@.len(),
            hc.remaining() == head@.skip(prefix@.len() + j),
            out@ == replacement@ + head@.skip(prefix@.len() as int).take(j),
        ensures
            out@ == replacement@ + head@.skip(prefix@.len() as int),
        decreases head@.len() - prefix@.len() - j,
    {
        let ghost hc_rest = hc.remaining();
        match hc.next() {
            None => {
                proof {
                    assert(hc_rest.len() == 0);
                    assert(prefix@.len() + j == head@.len());
                    assert(head@.skip(prefix@.len() as int).take(j) =~= head@.skip(
                        prefix@.len() as int,
                    ));
                }
                break ;
            },
            Some(c) => {
                proof {
                    assert(hc_rest.len() > 0);
                    assert(c == head@.skip(prefix@.len() + j)[0]);
                    assert(hc.remaining() =~= head@.skip(prefix@.len() + j + 1));
                }
                let ghost before = out@;
                out.push(c);
                proof {
                    assert(out@ =~= replacement@ + head@.skip(prefix@.len() as int).take(j + 1));
                    j = j + 1;
                }
            },
        }
    }
    Some(out)
}

/// The path under which a host type is addressed, one component per
/// module level.
#[derive(Debug)]
pub struct ImportPath {
    pub components: Vec<String>,
}

impl DeepView for ImportPath {
    type V = Seq<Seq<char>>;

    open spec fn deep_view(&self) -> Seq<Seq<char>> {
        self.components.deep_view()
    }
}

impl ImportPath {
    /// A path made of the given components.
    pub fn new(components: Vec<String>) -> (r: ImportPath)
        ensures
            r.deep_view() == components.deep_view(),
    {
        ImportPath { components }
    }

    /// A copy of this path whose leading component, when it starts with
    /// the characters of `prefix`, has that prefix swapped for
    /// `replacement`; every other component, and a leading component the
    /// prefix does not lead, is kept as it is.
    pub fn replace_prefix(&self, prefix: &String, replacement: &String) -> (r: ImportPath)
        ensures
            r.deep_view().len() == self.deep_view().len(),
            forall|k: int|
                1 <= k < self.deep_view().len() ==> #[trigger] r.deep_view()[k]
                    == self.deep_view()[k],
            self.deep_view().len() > 0 ==> r.deep_view()[0] == if leads_with(
                self.deep_view()[0],
                prefix@,
            ) {
                replacement@ + self.deep_view()[0].skip(prefix@.len() as int)
            } else {
                self.deep_view()[0]
            },
    {
        let mut components: Vec<String> = Vec::new();
        let mut i: usize = 0;
        while i < self.components.len()
            invariant
                i <= self.components.len(),
                components.deep_view().len() == i as int,
                forall|k: int|
                    0 <= k < i ==> #[trigger] components.deep_view()[k]
                        == self.components.deep_view()[k],
            decreases self.components.len() - i,
        {
            let ghost before = components.deep_view();
            components.push(self.components[i].clone());
            proof {
                assert(components.deep_view() =~= before.push(
                    self.components.deep_view()[i as int],
                ));
            }
            i += 1;
        }
        proof {
            if components@.len() > 0 {
                assert(components.deep_view()[0] == components@[0].deep_view());
            }
        }
        if components.len() > 0 {
            match replaced_head(&components[0], prefix, replacement) {
                Some(swapped) => {
                    let ghost before = components.deep_view();
                    let ghost bv = components@;
                    components[0] = swapped;
                    proof {
                        assert forall|k: int|
                            0 <= k < components@.len() implies #[trigger] components.deep_view()[k]
                            == before.update(
                            0,
                            replacement@ + self.deep_view()[0].skip(prefix@.len() as int),
                        )[k] by {
                            assert(components.deep_view()[k] == components@[k].deep_view());
                            if k != 0 {
                                assert(components@[k] == bv[k]);
                                assert(before[k] == bv[k].deep_view());
                            }
                        }
                        assert(components.deep_view() =~= before.update(
                            0,
                            replacement@ + self.deep_view()[0].skip(prefix@.len() as int),
                        ));
                    }
                },
                None => {},
            }
        }
        ImportPath { components }
    }
}

} // verus!
