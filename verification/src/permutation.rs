//! The permutation argument's column bookkeeping, and the byte-level
//! serialization of its verifying key: one commitment per column involved.

use vstd::prelude::*;

use crate::Error;
use crate::curve::Point;
use crate::curve::valid_point_enc;
use crate::queries::distinct;

verus! {

/// The kind of a circuit column.
#[derive(Clone, Copy, Debug, PartialEq, Eq, Structural)]
pub enum Any {
    /// A witness value column.
    Advice,
    /// A fixed, preprocessed column.
    Fixed,
    /// A public input column.
    Instance,
}

/// A circuit column: its kind and its index among columns of that kind.
#[derive(Clone, Copy, Debug, PartialEq, Eq, Structural)]
pub struct Column {
    pub index: usize,
    pub column_type: Any,
}

/// A permutation argument: the sequence of columns involved in it, each at
/// most once.
pub struct Argument {
    columns: Vec<Column>,
}

impl Argument {
    /// The columns involved in the argument, in insertion order.
    pub closed spec fn view(&self) -> Seq<Column> {
        self.columns@
    }

    /// An empty argument.
    pub fn new() -> (r: Argument)
        ensures
            r@ == Seq::<Column>::empty(),
    {
        Argument { columns: Vec::new() }
    }

    /// The circuit degree the argument requires. There are constraints of
    /// degree three regardless of the number of columns involved: the
    /// first-row constraint on the running product is degree two, and the
    /// last-row constraint that allows the final value to be zero or one,
    /// which keeps the argument perfectly complete, is degree three.
    pub fn required_degree(&self) -> (r: usize)
        ensures
            r == 3,
    {
        3
    }

    /// Involve a column in the argument; a column already involved is not
    /// added again.
    pub fn add_column(&mut self, column: Column)
        ensures
            old(self)@.contains(column) ==> final(self)@ == old(self)@,
            !old(self)@.contains(column) ==> final(self)@ == old(self)@.push(column),
            distinct(old(self)@) ==> distinct(final(self)@),
    {
        let mut i: usize = 0;
        while i < self.columns.len()
            invariant
                i <= self.columns@.len(),
                self == old(self),
                forall|j: int| 0 <= j < i ==> self.columns@[j] != column,
            decreases self.columns@.len() - i,
        {
            if self.columns[i] == column {
                proof {
                    assert(old(self)@.contains(column));
                }
                return ;
            }
            i = i + 1;
        }
        proof {
            if old(self)@.contains(column) {
                let w = choose|w: int| 0 <= w < old(self)@.len() && old(self)@[w] == column;
            }
        }
        self.columns.push(column);
        proof {
            if distinct(old(self)@) {
                assert forall|a: int, b: int|
                    0 <= a < b < self@.len() implies self@[a] != self@[b] by {
                    if b == self@.len() - 1 {
                        assert(!old(self)@.contains(self@[b]));
                        assert(old(self)@[a] == self@[a]);
                    }
                }
            }
        }
    }

    /// The columns involved, as a fresh vector.
    pub fn get_columns(&self) -> (r: Vec<Column>)
        ensures
            r@ == self@,
    {
        let mut out: Vec<Column> = Vec::new();
        let mut i: usize = 0;
        while i < self.columns.len()
            invariant
                i <= self.columns@.len(),
                self@ == self.columns@,
                out@ == self.columns@.subrange(0, i as int),
            decreases self.columns@.len() - i,
        {
            out.push(self.columns[i]);
            proof {
                assert(self.columns@.subrange(0, i as int).push(self.columns@[i as int])
                    =~= self.columns@.subrange(0, i as int + 1));
            }
            i = i + 1;
        }
        proof {
            assert(self.columns@.subrange(0, self.columns@.len() as int) =~= self.columns@);
        }
        out
    }
}

/// The concatenated canonical encodings of a sequence of points.
pub open spec fn points_bytes(cs: Seq<Point>) -> Seq<u8>
    decreases cs.len(),
{
    if cs.len() == 0 {
        Seq::empty()
    } else {
        points_bytes(cs.drop_last()) + cs.last()@
    }
}

/// The verifying key of a single permutation argument: one commitment per
/// involved column.
pub struct VerifyingKey {
    pub commitments: Vec<Point>,
}

impl VerifyingKey {
    /// Every commitment is a real point.
    pub open spec fn wf(&self) -> bool {
        forall|i: int| 0 <= i < self.commitments@.len() ==> (#[trigger] self.commitments@[i]).wf()
    }

    /// Serialize: the canonical encoding of each commitment, in order.
    pub fn write(&self) -> (r: Vec<u8>)
        ensures
            r@ == points_bytes(self.commitments@),
    {
        let mut out: Vec<u8> = Vec::new();
        let mut i: usize = 0;
        while i < self.commitments.len()
            invariant
                i <= self.commitments@.len(),
                out@ == points_bytes(self.commitments@.subrange(0, i as int)),
            decreases self.commitments@.len() - i,
        {
            let bytes = self.commitments[i].to_bytes();
            let mut k: usize = 0;
            while k < 32
                invariant
                    k <= 32,
                    bytes@ == self.commitments@[i as int]@,
                    i < self.commitments@.len(),
                    out@ == points_bytes(self.commitments@.subrange(0, i as int)) + bytes@.take(
                        k as int,
                    ),
                decreases 32 - k,
            {
                out.push(bytes[k]);
                proof {
                    assert(bytes@.take(k as int).push(bytes@[k as int]) =~= bytes@.take(
                        k as int + 1,
                    ));
                    assert(points_bytes(self.commitments@.subrange(0, i as int)) + bytes@.take(
                        k as int,
                    ) + seq![bytes@[k as int]] =~= points_bytes(
                        self.commitments@.subrange(0, i as int),
                    ) + bytes@.take(k as int + 1));
                }
                k = k + 1;
            }
            proof {
                let pre = self.commitments@.subrange(0, i as int + 1);
                assert(pre.drop_last() =~= self.commitments@.subrange(0, i as int));
                assert(bytes@.take(32) =~= bytes@);
                assert(out@ =~= points_bytes(pre));
            }
            i = i + 1;
        }
        proof {
            assert(self.commitments@.subrange(0, self.commitments@.len() as int)
                =~= self.commitments@);
        }
        out
    }

    /// Deserialize one commitment per column of the argument from the
    /// serialized bytes: exactly 32 bytes each, each a canonical point
    /// encoding.
    pub fn read(bytes: &Vec<u8>, argument: &Argument) -> (r: Result<VerifyingKey, Error>)
        ensures
            r matches Ok(vk) ==> {
                &&& bytes@.len() >= 32 * argument@.len()
                &&& vk.commitments@.len() == argument@.len()
                &&& vk.wf()
                &&& forall|i: int|
                    0 <= i < argument@.len() ==> (#[trigger] vk.commitments@[i])@
                        == bytes@.subrange(32 * i, 32 * i + 32)
            },
            r is Err ==> bytes@.len() < 32 * argument@.len() || exists|i: int|
                0 <= i < argument@.len() && !valid_point_enc(
                    #[trigger] bytes@.subrange(32 * i, 32 * i + 32),
                ),
    {
        let n = argument.columns.len();
        proof {
            assert(argument@.len() == argument.columns@.len());
        }
        let mut commitments: Vec<Point> = Vec::new();
        let mut i: usize = 0;
        if bytes.len() / 32 < n {
            proof {
                assert(bytes@.len() < 32 * argument@.len()) by (nonlinear_arith)
                    requires
                        bytes@.len() / 32 < argument@.len(),
                        bytes@.len() >= 0,
                ;
            }
            return Err(Error::Io);
        }
        proof {
            assert(bytes@.len() >= 32 * argument@.len()) by (nonlinear_arith)
                requires
                    bytes@.len() / 32 >= argument@.len(),
            ;
        }
        let blen = bytes.len();
        while i < n
            invariant
                i <= n,
                n == argument@.len(),
                blen == bytes@.len(),
                bytes@.len() >= 32 * n,
                commitments@.len() == i,
                forall|j: int|
                    0 <= j < i ==> (#[trigger] commitments@[j])@ == bytes@.subrange(
                        32 * j,
                        32 * j + 32,
                    ) && commitments@[j].wf(),
            decreases n - i,
        {
            let mut chunk = [0u8; 32];
            let mut k: usize = 0;
            while k < 32
                invariant
                    k <= 32,
                    i < n,
                    blen == bytes@.len(),
                    bytes@.len() >= 32 * n,
                    forall|j: int| 0 <= j < k ==> chunk@[j] == bytes@[32 * i + j],
                decreases 32 - k,
            {
                proof {
                    assert(32 * (i as int) + 32 <= 32 * (n as int)) by (nonlinear_arith)
                        requires
                            i < n,
                    ;
                }
                chunk[k] = bytes[32 * i + k];
                k = k + 1;
            }
            proof {
                assert(chunk@ =~= bytes@.subrange(32 * i as int, 32 * i as int + 32));
            }
            match Point::from_bytes(&chunk) {
                None => {
                    return Err(Error::Encoding);
                },
                Some(p) => {
                    commitments.push(p);
                },
            }
            i = i + 1;
        }
        Ok(VerifyingKey { commitments })
    }
}

} // verus!
