//! A fully buffered level-geometry container: the parsed header and the
//! file body after it, with lump reads and in-place lump replacement.

use vstd::prelude::*;
use vstd::slice::slice_subrange;

use super::{push_u32_le, lumps_bytes, u32_le_bytes, BSPHeader, Lump, BSP_HEADER_LEN, BSP_LUMP_COUNT};

verus! {

/// A buffered container: its header and all the bytes that follow it.
pub struct BufferedBSP {
    pub header: BSPHeader,
    pub data_without_header: Vec<u8>,
}

/// The bytes of the lump `l` inside body `data`: the directory entry's
/// range, rebased past the header; a lump placed before the end of the
/// header has no data.
pub open spec fn lump_bytes(data: Seq<u8>, l: Lump) -> Seq<u8> {
    if l.off < BSP_HEADER_LEN {
        Seq::empty()
    } else {
        data.subrange(l.off - BSP_HEADER_LEN, l.off + l.len - BSP_HEADER_LEN)
    }
}

/// Whether the directory entry `l` fits the body `data`.
pub open spec fn lump_in_range(data: Seq<u8>, l: Lump) -> bool {
    l.off >= BSP_HEADER_LEN ==> l.off + l.len - BSP_HEADER_LEN <= data.len()
}

impl BufferedBSP {
    /// The bytes of lump `lump_index`, as `lump_bytes` states.
    pub fn lump_slice(&self, lump_index: usize) -> (r: &[u8])
        requires
            lump_index < self.header.lumps@.len(),
            lump_in_range(self.data_without_header@, self.header.lumps@[lump_index as int]),
            self.header.lumps@[lump_index as int].off + self.header.lumps@[lump_index as int].len
                <= u32::MAX,
        ensures
            r@ == lump_bytes(self.data_without_header@, self.header.lumps@[lump_index as int]),
    {
        let off = self.header.lumps[lump_index].off;
        let len = self.header.lumps[lump_index].len;
        if off < BSP_HEADER_LEN {
            let empty: &[u8] = &[];
            proof {
                assert(empty@ =~= Seq::<u8>::empty());
            }
            return empty;
        }
        slice_subrange(
            self.data_without_header.as_slice(),
            (off - BSP_HEADER_LEN) as usize,
            (off + len - BSP_HEADER_LEN) as usize,
        )
    }

    /// Replaces the bytes of lump `lump_index` with `new_lump`, records its
    /// new length in the directory, and shifts the offset of every lump
    /// that lay after it by the length difference.
    pub fn replace_lump(&mut self, lump_index: usize, new_lump: Vec<u8>)
        requires
            lump_index < old(self).header.lumps@.len(),
            old(self).header.lumps@[lump_index as int].off >= BSP_HEADER_LEN,
            old(self).header.lumps@[lump_index as int].off
                + old(self).header.lumps@[lump_index as int].len - BSP_HEADER_LEN <= old(
                self,
            ).data_without_header@.len(),
            new_lump@.len() <= u32::MAX,
            old(self).data_without_header@.len()
                - old(self).header.lumps@[lump_index as int].len + new_lump@.len() <= usize::MAX,
            forall|k: int|
                0 <= k < old(self).header.lumps@.len() && (#[trigger] old(self).header.lumps@[k]).off
                    > old(self).header.lumps@[lump_index as int].off ==> 0
                    <= old(self).header.lumps@[k].off
                    - old(self).header.lumps@[lump_index as int].len + new_lump@.len() <= u32::MAX,
        ensures
            final(self).header.version == old(self).header.version,
            final(self).header.map_revision == old(self).header.map_revision,
            final(self).data_without_header@ == old(self).data_without_header@.subrange(
                0,
                old(self).header.lumps@[lump_index as int].off - BSP_HEADER_LEN,
            ) + new_lump@ + old(self).data_without_header@.skip(
                old(self).header.lumps@[lump_index as int].off
                    + old(self).header.lumps@[lump_index as int].len - BSP_HEADER_LEN,
            ),
            final(self).header.lumps@.len() == old(self).header.lumps@.len(),
            forall|k: int|
                0 <= k < old(self).header.lumps@.len() ==> (#[trigger] final(self).header.lumps@[k])
                    == (Lump {
                    off: if k != lump_index && old(self).header.lumps@[k].off
                        > old(self).header.lumps@[lump_index as int].off {
                        (old(self).header.lumps@[k].off
                            - old(self).header.lumps@[lump_index as int].len
                            + new_lump@.len()) as u32
                    } else {
                        old(self).header.lumps@[k].off
                    },
                    len: if k == lump_index {
                        new_lump@.len() as u32
                    } else {
                        old(self).header.lumps@[k].len
                    },
                    version: old(self).header.lumps@[k].version,
                    ident: old(self).header.lumps@[k].ident,
                }),
    {
        let ghost data0 = self.data_without_header@;
        let ghost lumps0 = self.header.lumps@;
        let old_off = self.header.lumps[lump_index].off;
        let old_len = self.header.lumps[lump_index].len;
        let new_len = new_lump.len() as u32;
        let body_len = self.data_without_header.len();
        let lo = (old_off - BSP_HEADER_LEN) as usize;
        proof {
            assert(lo + old_len <= body_len);
        }
        let hi = (old_off - BSP_HEADER_LEN) as usize + old_len as usize;

        // splice the new bytes over the lump's old range
        let mut data: Vec<u8> = Vec::new();
        let mut i: usize = 0;
        while i < lo
            invariant
                self.header == old(self).header,
                self.data_without_header@ == data0,
                lo <= hi <= data0.len(),
                i <= lo,
                data@ == data0.subrange(0, i as int),
            decreases lo - i,
        {
            data.push(self.data_without_header[i]);
            i += 1;
            proof {
                assert(data0.subrange(0, i as int) =~= data0.subrange(0, i - 1).push(
                    data0[i - 1],
                ));
            }
        }
        let mut j: usize = 0;
        let new_total = new_lump.len();
        while j < new_total
            invariant
                self.header == old(self).header,
                self.data_without_header@ == data0,
                lo <= hi <= data0.len(),
                j <= new_lump@.len(),
                new_total == new_lump@.len(),
                data@ == data0.subrange(0, lo as int) + new_lump@.subrange(0, j as int),
            decreases new_total - j,
        {
            data.push(new_lump[j]);
            j += 1;
            proof {
                assert(data0.subrange(0, lo as int) + new_lump@.subrange(0, j as int) =~= (
                data0.subrange(0, lo as int) + new_lump@.subrange(0, j - 1)).push(
                    new_lump@[j - 1],
                ));
            }
        }
        let mut k: usize = hi;
        let total = self.data_without_header.len();
        while k < total
            invariant
                self.header == old(self).header,
                self.data_without_header@ == data0,
                lo <= hi <= data0.len(),
                total == data0.len(),
                hi <= k <= total,
                data@ == data0.subrange(0, lo as int) + new_lump@ + data0.subrange(
                    hi as int,
                    k as int,
                ),
            decreases total - k,
        {
            data.push(self.data_without_header[k]);
            k += 1;
            proof {
                assert(data0.subrange(0, lo as int) + new_lump@ + data0.subrange(
                    hi as int,
                    k as int,
                ) =~= (data0.subrange(0, lo as int) + new_lump@ + data0.subrange(
                    hi as int,
                    k - 1,
                )).push(data0[k - 1]));
            }
        }
        proof {
            assert(new_lump@.subrange(0, new_lump@.len() as int) =~= new_lump@);
            assert(data0.subrange(hi as int, data0.len() as int) =~= data0.skip(hi as int));
        }
        self.data_without_header = data;

        // record the new length and shift the lumps that lay after this one
        self.header.lumps[lump_index].len = new_len;
        let mut k: usize = 0;
        let count = self.header.lumps.len();
        while k < count
            invariant
                self.header.version == old(self).header.version,
                self.header.map_revision == old(self).header.map_revision,
                self.data_without_header@ == data0.subrange(0, lo as int) + new_lump@
                    + data0.skip(hi as int),
                lumps0 == old(self).header.lumps@,
                count == lumps0.len(),
                lump_index < lumps0.len(),
                k <= count,
                old_off == lumps0[lump_index as int].off,
                old_len == lumps0[lump_index as int].len,
                new_len == new_lump@.len(),
                forall|k2: int|
                    0 <= k2 < lumps0.len() && (#[trigger] lumps0[k2]).off > old_off ==> 0 <= (
                    lumps0[k2]).off - old_len + new_len <= u32::MAX,
                self.header.lumps@.len() == lumps0.len(),
                forall|k2: int|
                    0 <= k2 < k ==> (#[trigger] self.header.lumps@[k2]) == (Lump {
                        off: if k2 != lump_index && lumps0[k2].off > old_off {
                            (lumps0[k2].off - old_len + new_len) as u32
                        } else {
                            lumps0[k2].off
                        },
                        len: if k2 == lump_index {
                            new_len
                        } else {
                            lumps0[k2].len
                        },
                        version: lumps0[k2].version,
                        ident: lumps0[k2].ident,
                    }),
                forall|k2: int|
                    k <= k2 < lumps0.len() ==> (#[trigger] self.header.lumps@[k2]) == (Lump {
                        off: lumps0[k2].off,
                        len: if k2 == lump_index {
                            new_len
                        } else {
                            lumps0[k2].len
                        },
                        version: lumps0[k2].version,
                        ident: lumps0[k2].ident,
                    }),
            decreases count - k,
        {
            let this_off = self.header.lumps[k].off;
            if k != lump_index && this_off > old_off {
                let shifted = (this_off as u64 + new_len as u64) - old_len as u64;
                self.header.lumps[k].off = shifted as u32;
            }
            k += 1;
        }
    }

    /// The container serialized back to file form: the signature, the
    /// version, the first `BSP_LUMP_COUNT` directory entries, the map
    /// revision, then the body.
    pub fn to_bytes(&self) -> (r: Vec<u8>)
        requires
            self.header.lumps@.len() >= BSP_LUMP_COUNT,
        ensures
            r@ == seq![86u8, 66u8, 83u8, 80u8] + u32_le_bytes(self.header.version) + lumps_bytes(
                self.header.lumps@,
                BSP_LUMP_COUNT as int,
            ) + u32_le_bytes(self.header.map_revision) + self.data_without_header@,
    {
        let ghost magic: Seq<u8> = seq![86u8, 66u8, 83u8, 80u8];
        let mut r: Vec<u8> = Vec::new();
        r.push(86);
        r.push(66);
        r.push(83);
        r.push(80);
        proof {
            assert(r@ =~= magic);
        }
        push_u32_le(&mut r, self.header.version);
        let ghost pre = magic + u32_le_bytes(self.header.version);
        let mut i: usize = 0;
        while i < BSP_LUMP_COUNT
            invariant
                self.header.lumps@.len() >= BSP_LUMP_COUNT,
                pre == magic + u32_le_bytes(self.header.version),
                i <= BSP_LUMP_COUNT,
                r@ == pre + lumps_bytes(self.header.lumps@, i as int),
            decreases BSP_LUMP_COUNT - i,
        {
            push_u32_le(&mut r, self.header.lumps[i].off);
            push_u32_le(&mut r, self.header.lumps[i].len);
            push_u32_le(&mut r, self.header.lumps[i].version);
            push_u32_le(&mut r, self.header.lumps[i].ident);
            i += 1;
            proof {
                assert(r@ =~= pre + lumps_bytes(self.header.lumps@, i as int));
            }
        }
        push_u32_le(&mut r, self.header.map_revision);
        let ghost pre2 = pre + lumps_bytes(self.header.lumps@, BSP_LUMP_COUNT as int)
            + u32_le_bytes(self.header.map_revision);
        let mut j: usize = 0;
        let total = self.data_without_header.len();
        while j < total
            invariant
                pre2 == pre + lumps_bytes(self.header.lumps@, BSP_LUMP_COUNT as int)
                    + u32_le_bytes(self.header.map_revision),
                total == self.data_without_header@.len(),
                j <= total,
                r@ == pre2 + self.data_without_header@.take(j as int),
            decreases total - j,
        {
            r.push(self.data_without_header[j]);
            j += 1;
            proof {
                assert(pre2 + self.data_without_header@.take(j as int) =~= (pre2
                    + self.data_without_header@.take(j - 1)).push(
                    self.data_without_header@[j - 1],
                ));
            }
        }
        proof {
            assert(self.data_without_header@.take(total as int) =~= self.data_without_header@);
        }
        r
    }
}

} // verus!
