//! A record: its fields' values in declaration order. Its size, pack and
//! unpack are composed from those of its fields.

use vstd::prelude::*;
use crate::field::{fields_view, lemma_fields_view_index, Field, PackableError};
use crate::model::{
    lemma_size_matches_pack, lemma_split_at, lemma_take_next, pack_of, size_of, unpack_of, Value,
};

verus! {

/// The record's value: each field's value, in declaration order.
#[derive(Debug, PartialEq, Eq)]
pub struct Record {
    pub fields: Vec<Field>,
}

impl View for Record {
    type V = Seq<Value>;

    open spec fn view(&self) -> Seq<Value> {
        fields_view(self.fields@)
    }
}

impl Record {
    /// The packed size: the sum of the fields' sizes.
    pub fn size(&self) -> (r: usize)
        requires
            size_of(self@) <= usize::MAX,
        ensures
            r as nat == size_of(self@),
        decreases self,
    {
        let ghost vs = self@;
        proof {
            lemma_fields_view_index(self.fields@);
        }
        let mut total: usize = 0;
        let mut i: usize = 0;
        while i < self.fields.len()
            invariant
                vs == self@,
                vs.len() == self.fields@.len(),
                forall|j: int| 0 <= j < vs.len() ==> #[trigger] vs[j] == crate::field::field_view(
                    self.fields@[j],
                ),
                i <= vs.len(),
                size_of(vs) <= usize::MAX,
                total as nat == size_of(vs.take(i as int)),
            decreases vs.len() - i,
        {
            proof {
                lemma_take_next(vs, i as int, true);
                lemma_split_at(vs, i + 1, true);
            }
            total = total + self.fields[i].size();
            i = i + 1;
        }
        assert(vs.take(i as int) =~= vs);
        total
    }

    /// The fields' bytes in declaration order, all under `little_endian`.
    pub fn pack(&self, little_endian: bool) -> (r: Vec<u8>)
        ensures
            r@ == pack_of(self@, little_endian),
            r@.len() == size_of(self@),
        decreases self,
    {
        let ghost vs = self@;
        proof {
            lemma_fields_view_index(self.fields@);
        }
        let mut out: Vec<u8> = Vec::new();
        let mut i: usize = 0;
        while i < self.fields.len()
            invariant
                vs == self@,
                vs.len() == self.fields@.len(),
                forall|j: int| 0 <= j < vs.len() ==> #[trigger] vs[j] == crate::field::field_view(
                    self.fields@[j],
                ),
                i <= vs.len(),
                out@ == pack_of(vs.take(i as int), little_endian),
            decreases vs.len() - i,
        {
            proof {
                lemma_take_next(vs, i as int, little_endian);
            }
            let mut bytes = self.fields[i].pack(little_endian);
            out.append(&mut bytes);
            i = i + 1;
        }
        assert(vs.take(i as int) =~= vs);
        proof {
            lemma_size_matches_pack(vs, little_endian);
        }
        out
    }

    /// Unpacks every field in declaration order from the front of `data`
    /// under `little_endian`, consuming the bytes each one claims. The first
    /// field that fails ends the unpack with its error: the fields before it
    /// hold their new values, the fields after it keep their old ones.
    pub fn unpack(&mut self, data: &mut Vec<u8>, little_endian: bool) -> (r: Result<
        (),
        PackableError,
    >)
        ensures
            unpack_of(old(self)@, old(data)@, little_endian) == (final(self)@, final(data)@, r),
        decreases *old(self),
    {
        let ghost vs0 = self@;
        let ghost data0 = data@;
        let n = self.fields.len();
        let mut i: usize = 0;
        proof {
            lemma_fields_view_index(self.fields@);
            assert(vs0.skip(0) =~= vs0);
            let (t, d, r) = unpack_of(vs0, data0, little_endian);
            assert(vs0.take(0) + t =~= t);
        }
        while i < n
            invariant
                vs0 == old(self)@,
                data0 == old(data)@,
                n == self.fields@.len(),
                n == old(self).fields@.len(),
                i <= n,
                self.fields@.skip(i as int) == old(self).fields@.skip(i as int),
                ({
                    let (t, d, r) = unpack_of(self@.skip(i as int), data@, little_endian);
                    unpack_of(vs0, data0, little_endian) == (self@.take(i as int) + t, d, r)
                }),
            decreases n - i,
        {
            let ghost fs = self.fields@;
            let ghost s = self@.skip(i as int);
            let ghost pre = self@.take(i as int);
            let ghost d = data@;
            proof {
                lemma_fields_view_index(fs);
                assert(fs[i as int] == fs.skip(i as int)[0]);
                assert(fs[i as int] == old(self).fields@[i as int]);
            }
            proof {
                assert(decreases_to!(old(self).fields => old(self).fields[i as int]));
            }
            let mut f = Field::Bool(false);
            self.fields.set_and_swap(i, &mut f);
            let res = f.unpack(data, little_endian);
            self.fields.set_and_swap(i, &mut f);
            proof {
                lemma_fields_view_index(self.fields@);
                assert(s[0] == crate::field::field_view(fs[i as int]));
                assert(s.len() > 0);
            }
            if res.is_err() {
                proof {
                    assert(pre + (seq![self@[i as int]] + s.drop_first()) =~= self@);
                }
                return res;
            }
            i = i + 1;
            proof {
                assert(self.fields@.skip(i as int) =~= old(self).fields@.skip(i as int)) by {
                    assert(fs.skip(i - 1) == old(self).fields@.skip(i - 1));
                    assert forall|j: int| 0 <= j < n - i implies self.fields@.skip(i as int)[j]
                        == old(self).fields@.skip(i as int)[j] by {
                        assert(fs.skip(i - 1)[j + 1] == old(self).fields@.skip(i - 1)[j + 1]);
                    }
                }
                assert(self@.skip(i as int) =~= s.drop_first());
                assert(self@.take(i as int) =~= pre + seq![self@[i - 1]]);
                let (t, dl, rr) = unpack_of(s.drop_first(), data@, little_endian);
                assert(pre + (seq![self@[i - 1]] + t) =~= self@.take(i as int) + t);
            }
        }
        proof {
            lemma_fields_view_index(self.fields@);
        }
        assert(self@.take(i as int) =~= self@);
        assert(self@.skip(i as int) =~= Seq::<Value>::empty());
        Ok(())
    }
}

} // verus!
