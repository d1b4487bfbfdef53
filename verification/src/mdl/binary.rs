//! Decoder for the compiled-model binary format: header, texture name
//! table, texture directory table and skin remap table, plus the compaction
//! of the remap table into per-family skin variants.

use vstd::prelude::*;

use crate::bytes::{byte_at, cstr_window, le_u16_at, le_u32_at, nul_scan, read_u16_le, read_u32_le};
use crate::strutil::{byte_char, string_of_chars};

verus! {

/// Metadata decoded from a compiled model: its embedded name, its texture
/// name and directory tables, and its compacted skin variants.
pub struct PartialMDL {
    pub name: String,
    pub texture_names: Vec<String>,
    pub texture_dirs: Vec<String>,
    pub skin_count: u32,
    pub texture_slot_count: u32,
    pub skins: Vec<MDLSkin>,
}

/// One skin family's remap: texture-table indices, one per slot.
pub struct MDLSkin(pub Vec<u16>);

/// Why a decode failed: the buffer is not a model at all, or a structurally
/// required read fell outside the buffer.
#[derive(Debug, PartialEq, Eq)]
pub enum Error {
    Io,
    InvalidHeader,
}

/// One cell of the skin remap table held flat in read order
/// (family-major): the entry for slot row `r` of family `f`.
pub open spec fn cell(flat: Seq<u16>, h: int, r: int, f: int) -> u16 {
    flat[f * h + r]
}

/// Whether row `r` differs across families.
pub open spec fn row_differs(flat: Seq<u16>, w: int, h: int, r: int) -> bool {
    exists|f: int| 0 <= f < w && #[trigger] cell(flat, h, r, f) != cell(flat, h, r, 0)
}

/// The last row below `upto` that differs across families, or 0 if none.
pub open spec fn last_diff_upto(flat: Seq<u16>, w: int, h: int, upto: int) -> int
    decreases upto,
{
    if upto <= 0 {
        0
    } else if row_differs(flat, w, h, upto - 1) {
        upto - 1
    } else {
        last_diff_upto(flat, w, h, upto - 1)
    }
}

/// Whether a table value may count as a texture index to be tracked:
/// one of the `h` conceptually possible index values.
pub open spec fn eligible(v: u16, h: int) -> bool {
    (v as int) < h
}

/// Whether `v` appears somewhere in row `r`.
pub open spec fn occurs_in_row(flat: Seq<u16>, w: int, h: int, r: int, v: u16) -> bool {
    exists|f: int| 0 <= f < w && #[trigger] cell(flat, h, r, f) == v
}

/// Whether `v` appears in some row before `r`.
pub open spec fn occurs_before(flat: Seq<u16>, w: int, h: int, r: int, v: u16) -> bool {
    exists|r2: int| 0 <= r2 < r && #[trigger] occurs_in_row(flat, w, h, r2, v)
}

/// Whether row `r` holds some tracked index value that no earlier row holds.
pub open spec fn row_introduces(flat: Seq<u16>, w: int, h: int, r: int) -> bool {
    exists|v: u16|
        eligible(v, h) && #[trigger] occurs_in_row(flat, w, h, r, v) && !occurs_before(
            flat,
            w,
            h,
            r,
            v,
        )
}

/// The last row below `upto` that introduces a fresh tracked index, or 0 if
/// none.
pub open spec fn last_new_upto(flat: Seq<u16>, w: int, h: int, upto: int) -> int
    decreases upto,
{
    if upto <= 0 {
        0
    } else if row_introduces(flat, w, h, upto - 1) {
        upto - 1
    } else {
        last_new_upto(flat, w, h, upto - 1)
    }
}

/// The last informative row of the table: the later of the last row that
/// differs across families and the last row that introduces a fresh index.
pub open spec fn last_informative(flat: Seq<u16>, w: int, h: int) -> int {
    let d = last_diff_upto(flat, w, h, h);
    let u = last_new_upto(flat, w, h, h);
    if d >= u {
        d
    } else {
        u
    }
}

proof fn lemma_last_diff_bound(flat: Seq<u16>, w: int, h: int, upto: int)
    requires
        upto >= 1,
    ensures
        0 <= last_diff_upto(flat, w, h, upto) < upto,
    decreases upto,
{
    if upto == 1 {
        assert(last_diff_upto(flat, w, h, 0) == 0);
    } else if !row_differs(flat, w, h, upto - 1) {
        lemma_last_diff_bound(flat, w, h, upto - 1);
    }
}

proof fn lemma_last_new_bound(flat: Seq<u16>, w: int, h: int, upto: int)
    requires
        upto >= 1,
    ensures
        0 <= last_new_upto(flat, w, h, upto) < upto,
    decreases upto,
{
    if upto == 1 {
        assert(last_new_upto(flat, w, h, 0) == 0);
    } else if !row_introduces(flat, w, h, upto - 1) {
        lemma_last_new_bound(flat, w, h, upto - 1);
    }
}

/// A table whose rows never differ across families and whose every value
/// already appears in row 0 compacts to a single slot.
pub proof fn lemma_uniform_table_compacts_to_one(flat: Seq<u16>, w: int, h: int)
    requires
        w >= 1,
        h >= 1,
        flat.len() == w * h,
        forall|r: int, f: int|
            0 <= r < h && 0 <= f < w ==> #[trigger] cell(flat, h, r, f) == cell(
                flat,
                h,
                r,
                0,
            ),
        forall|r: int, f: int|
            0 <= r < h && 0 <= f < w ==> occurs_in_row(
                flat,
                w,
                h,
                0,
                #[trigger] cell(flat, h, r, f),
            ),
    ensures
        last_informative(flat, w, h) == 0,
{
    lemma_uniform_no_diff(flat, w, h, h);
    lemma_uniform_no_new(flat, w, h, h);
}

proof fn lemma_uniform_no_diff(flat: Seq<u16>, w: int, h: int, upto: int)
    requires
        upto <= h,
        forall|r: int, f: int|
            0 <= r < h && 0 <= f < w ==> #[trigger] cell(flat, h, r, f) == cell(
                flat,
                h,
                r,
                0,
            ),
    ensures
        last_diff_upto(flat, w, h, upto) == 0,
    decreases upto,
{
    if upto > 0 {
        assert(!row_differs(flat, w, h, upto - 1));
        lemma_uniform_no_diff(flat, w, h, upto - 1);
    }
}

proof fn lemma_uniform_no_new(flat: Seq<u16>, w: int, h: int, upto: int)
    requires
        upto <= h,
        forall|r: int, f: int|
            0 <= r < h && 0 <= f < w ==> occurs_in_row(
                flat,
                w,
                h,
                0,
                #[trigger] cell(flat, h, r, f),
            ),
    ensures
        last_new_upto(flat, w, h, upto) == 0,
    decreases upto,
{
    if upto > 1 {
        assert(!row_introduces(flat, w, h, upto - 1)) by {
            if row_introduces(flat, w, h, upto - 1) {
                let v = choose|v: u16|
                    eligible(v, h) && #[trigger] occurs_in_row(flat, w, h, upto - 1, v)
                        && !occurs_before(flat, w, h, upto - 1, v);
                let f = choose|f: int| 0 <= f < w && #[trigger] cell(flat, h, upto - 1, f) == v;
                assert(occurs_in_row(flat, w, h, 0, v));
                assert(occurs_before(flat, w, h, upto - 1, v));
            }
        }
        lemma_uniform_no_new(flat, w, h, upto - 1);
    } else if upto == 1 {
        assert(last_new_upto(flat, w, h, 0) == 0);
    }
}

/// Whether one of the first `cols` families differs from family 0 in row
/// `r`.
spec fn row_differs_prefix(flat: Seq<u16>, h: int, r: int, cols: int) -> bool {
    exists|f: int| 0 <= f < cols && #[trigger] cell(flat, h, r, f) != cell(flat, h, r, 0)
}

/// Whether `v` appears among the first `cols` families of row `r`.
spec fn occurs_in_prefix(flat: Seq<u16>, h: int, r: int, cols: int, v: u16) -> bool {
    exists|f: int| 0 <= f < cols && #[trigger] cell(flat, h, r, f) == v
}

/// Whether the first `cols` families of row `r` hold a tracked index value
/// that no earlier row holds.
spec fn intro_prefix(flat: Seq<u16>, w: int, h: int, r: int, cols: int) -> bool {
    exists|v: u16|
        eligible(v, h) && #[trigger] occurs_in_prefix(flat, h, r, cols, v) && !occurs_before(
            flat,
            w,
            h,
            r,
            v,
        )
}

/// Compacts the raw skin remap table into one skin variant per family.
///
/// `flat` holds the table in read order (family-major): the cell for slot
/// row `r` of family `f` sits at `f * references + r`.  The slot count is
/// one more than the last informative row: the later of the last row that
/// differs across families and the last row introducing a tracked index
/// value unseen in earlier rows.
pub fn compact_skin_table(flat: &Vec<u16>, families: u32, references: u32) -> (r: (u32, Vec<
    MDLSkin,
>))
    requires
        families >= 1,
        references >= 1,
        flat@.len() == (families as int) * (references as int),
    ensures
        r.0 == last_informative(flat@, families as int, references as int) + 1,
        r.1@.len() == families as int,
        forall|f: int| 0 <= f < families as int ==> (#[trigger] r.1@[f]).0@.len() == r.0,
        forall|f: int, s: int|
            0 <= f < families as int && 0 <= s < r.0 ==> #[trigger] r.1@[f].0@[s] == cell(
                flat@,
                references as int,
                s,
                f,
            ),
{
    let ghost ff = flat@;
    let ghost ww = families as int;
    let ghost hh = references as int;
    proof {
        assert(ww <= ww * hh && hh <= ww * hh) by (nonlinear_arith)
            requires
                ww >= 1,
                hh >= 1,
        ;
    }
    let flat_len = flat.len();
    proof {
        assert(ff.len() == flat_len);
    }
    let w = families as usize;
    let h = references as usize;
    let s_len: usize = if references > 65535 {
        65536
    } else {
        references as usize
    };
    let mut seen: Vec<bool> = vec![false; s_len];
    let mut last_different: usize = 0;
    let mut last_unique: usize = 0;
    let mut x: usize = 0;
    while x < h
        invariant
            ww == families as int,
            hh == references as int,
            ww >= 1,
            hh >= 1,
            w == ww,
            h == hh,
            ff == flat@,
            ff.len() == ww * hh,
            ff.len() <= usize::MAX,
            s_len == (if hh > 65536 {
                65536int
            } else {
                hh
            }),
            x <= h,
            seen@.len() == s_len,
            last_different == last_diff_upto(ff, ww, hh, x as int),
            last_unique == last_new_upto(ff, ww, hh, x as int),
            last_different <= x,
            last_unique <= x,
            forall|v: u16|
                eligible(v, hh) ==> (v as int) < s_len && ((#[trigger] seen@[v as int])
                    <==> occurs_before(ff, ww, hh, x as int, v)),
            s_len <= hh,
        decreases h - x,
    {
        let mut y: usize = 0;
        while y < w
            invariant
                ww == families as int,
                hh == references as int,
                ww >= 1,
                hh >= 1,
                w == ww,
                h == hh,
                ff == flat@,
                ff.len() == ww * hh,
                ff.len() <= usize::MAX,
            ff.len() <= usize::MAX,
                s_len == (if hh > 65536 {
                    65536int
                } else {
                    hh
                }),
                x < h,
                y <= w,
                seen@.len() == s_len,
                last_different == (if row_differs_prefix(ff, hh, x as int, y as int) {
                    x as int
                } else {
                    last_diff_upto(ff, ww, hh, x as int)
                }),
                last_unique == (if intro_prefix(ff, ww, hh, x as int, y as int) {
                    x as int
                } else {
                    last_new_upto(ff, ww, hh, x as int)
                }),
                last_different <= x,
                last_unique <= x,
                forall|v: u16|
                    eligible(v, hh) ==> (v as int) < s_len && ((#[trigger] seen@[v as int])
                        <==> (occurs_before(ff, ww, hh, x as int, v) || occurs_in_prefix(
                        ff,
                        hh,
                        x as int,
                        y as int,
                        v,
                    ))),
                s_len <= hh,
            decreases w - y,
        {
            proof {
                assert((y as int) * hh + (x as int) < ww * hh) by (nonlinear_arith)
                    requires
                        0 <= (y as int) < ww,
                        0 <= (x as int) < hh,
                ;
            }
            let idx = y * h + x;
            let v = flat[idx];
            let v0 = flat[x];
            proof {
                assert(cell(ff, hh, x as int, y as int) == v);
                assert(cell(ff, hh, x as int, 0) == v0);
            }
            let ghost y1 = y as int + 1;
            if v0 != v {
                last_different = x;
            }
            proof {
                assert(row_differs_prefix(ff, hh, x as int, y1) == (row_differs_prefix(
                    ff,
                    hh,
                    x as int,
                    y as int,
                ) || v != v0)) by {
                    if row_differs_prefix(ff, hh, x as int, y1) {
                        let f = choose|f: int|
                            0 <= f < y1 && #[trigger] cell(ff, hh, x as int, f) != cell(
                                ff,
                                hh,
                                x as int,
                                0,
                            );
                        if f < y as int {
                            assert(row_differs_prefix(ff, hh, x as int, y as int));
                        }
                    }
                    if v != v0 {
                        assert(cell(ff, hh, x as int, y as int) != cell(ff, hh, x as int, 0));
                        assert(row_differs_prefix(ff, hh, x as int, y1));
                    }
                    if row_differs_prefix(ff, hh, x as int, y as int) {
                        let f = choose|f: int|
                            0 <= f < y as int && #[trigger] cell(ff, hh, x as int, f) != cell(
                                ff,
                                hh,
                                x as int,
                                0,
                            );
                        assert(row_differs_prefix(ff, hh, x as int, y1));
                    }
                }
            }
            if (v as u32) < references {
                proof {
                    assert(eligible(v, hh));
                }
                if !seen[v as usize] {
                    last_unique = x;
                    seen[v as usize] = true;
                    proof {
                        assert(occurs_in_prefix(ff, hh, x as int, y1, v)) by {
                            assert(cell(ff, hh, x as int, y as int) == v);
                        }
                        assert(intro_prefix(ff, ww, hh, x as int, y1));
                    }
                }
            }
            proof {
                assert forall|vv: u16| eligible(vv, hh) implies (vv as int) < s_len && ((
                #[trigger] seen@[vv as int]) <==> (occurs_before(ff, ww, hh, x as int, vv)
                    || occurs_in_prefix(ff, hh, x as int, y1, vv))) by {
                    assert(occurs_in_prefix(ff, hh, x as int, y1, vv) == (occurs_in_prefix(
                        ff,
                        hh,
                        x as int,
                        y as int,
                        vv,
                    ) || vv == v)) by {
                        if occurs_in_prefix(ff, hh, x as int, y1, vv) {
                            let f = choose|f: int|
                                0 <= f < y1 && #[trigger] cell(ff, hh, x as int, f) == vv;
                            if f < y as int {
                                assert(occurs_in_prefix(ff, hh, x as int, y as int, vv));
                            } else {
                                assert(vv == v);
                            }
                        }
                        if vv == v {
                            assert(cell(ff, hh, x as int, y as int) == vv);
                            assert(occurs_in_prefix(ff, hh, x as int, y1, vv));
                        }
                        if occurs_in_prefix(ff, hh, x as int, y as int, vv) {
                            let f = choose|f: int|
                                0 <= f < y as int && #[trigger] cell(ff, hh, x as int, f) == vv;
                            assert(occurs_in_prefix(ff, hh, x as int, y1, vv));
                        }
                    }
                }
                assert(intro_prefix(ff, ww, hh, x as int, y1) == (intro_prefix(
                    ff,
                    ww,
                    hh,
                    x as int,
                    y as int,
                ) || (eligible(v, hh) && !occurs_before(ff, ww, hh, x as int, v)))) by {
                    if intro_prefix(ff, ww, hh, x as int, y1) {
                        let vv = choose|vv: u16|
                            eligible(vv, hh) && #[trigger] occurs_in_prefix(ff, hh, x as int, y1, vv)
                                && !occurs_before(ff, ww, hh, x as int, vv);
                        let f = choose|f: int|
                            0 <= f < y1 && #[trigger] cell(ff, hh, x as int, f) == vv;
                        if f < y as int {
                            assert(occurs_in_prefix(ff, hh, x as int, y as int, vv));
                            assert(intro_prefix(ff, ww, hh, x as int, y as int));
                        } else {
                            assert(vv == v);
                        }
                    }
                    if intro_prefix(ff, ww, hh, x as int, y as int) {
                        let vv = choose|vv: u16|
                            eligible(vv, hh) && #[trigger] occurs_in_prefix(
                                ff,
                                hh,
                                x as int,
                                y as int,
                                vv,
                            ) && !occurs_before(ff, ww, hh, x as int, vv);
                        let f = choose|f: int|
                            0 <= f < y as int && #[trigger] cell(ff, hh, x as int, f) == vv;
                        assert(occurs_in_prefix(ff, hh, x as int, y1, vv));
                        assert(intro_prefix(ff, ww, hh, x as int, y1));
                    }
                    if eligible(v, hh) && !occurs_before(ff, ww, hh, x as int, v) {
                        assert(cell(ff, hh, x as int, y as int) == v);
                        assert(occurs_in_prefix(ff, hh, x as int, y1, v));
                        assert(intro_prefix(ff, ww, hh, x as int, y1));
                    }
                }
            }
            y += 1;
        }
        proof {
            let x1 = x as int + 1;
            assert(row_differs_prefix(ff, hh, x as int, ww) == row_differs(ff, ww, hh, x as int));
            assert(intro_prefix(ff, ww, hh, x as int, ww) == row_introduces(ff, ww, hh, x as int))
                by {
                if intro_prefix(ff, ww, hh, x as int, ww) {
                    let vv = choose|vv: u16|
                        eligible(vv, hh) && #[trigger] occurs_in_prefix(ff, hh, x as int, ww, vv)
                            && !occurs_before(ff, ww, hh, x as int, vv);
                    assert(occurs_in_row(ff, ww, hh, x as int, vv));
                    assert(row_introduces(ff, ww, hh, x as int));
                }
                if row_introduces(ff, ww, hh, x as int) {
                    let vv = choose|vv: u16|
                        eligible(vv, hh) && #[trigger] occurs_in_row(ff, ww, hh, x as int, vv)
                            && !occurs_before(ff, ww, hh, x as int, vv);
                    assert(occurs_in_prefix(ff, hh, x as int, ww, vv));
                    assert(intro_prefix(ff, ww, hh, x as int, ww));
                }
            }
            assert(last_diff_upto(ff, ww, hh, x1) == (if row_differs(ff, ww, hh, x as int) {
                x as int
            } else {
                last_diff_upto(ff, ww, hh, x as int)
            }));
            assert(last_new_upto(ff, ww, hh, x1) == (if row_introduces(ff, ww, hh, x as int) {
                x as int
            } else {
                last_new_upto(ff, ww, hh, x as int)
            }));
            assert forall|v: u16| eligible(v, hh) implies (v as int) < s_len && ((
            #[trigger] seen@[v as int]) <==> occurs_before(ff, ww, hh, x1, v)) by {
                assert(occurs_before(ff, ww, hh, x1, v) == (occurs_before(ff, ww, hh, x as int, v)
                    || occurs_in_row(ff, ww, hh, x as int, v))) by {
                    if occurs_before(ff, ww, hh, x1, v) {
                        let r2 = choose|r2: int|
                            0 <= r2 < x1 && #[trigger] occurs_in_row(ff, ww, hh, r2, v);
                        if r2 < x as int {
                            assert(occurs_before(ff, ww, hh, x as int, v));
                        }
                    }
                    if occurs_before(ff, ww, hh, x as int, v) {
                        let r2 = choose|r2: int|
                            0 <= r2 < x as int && #[trigger] occurs_in_row(ff, ww, hh, r2, v);
                        assert(occurs_before(ff, ww, hh, x1, v));
                    }
                    if occurs_in_row(ff, ww, hh, x as int, v) {
                        assert(occurs_before(ff, ww, hh, x1, v));
                    }
                }
                assert(occurs_in_row(ff, ww, hh, x as int, v) == occurs_in_prefix(
                    ff,
                    hh,
                    x as int,
                    ww,
                    v,
                )) by {
                    if occurs_in_row(ff, ww, hh, x as int, v) {
                        let f = choose|f: int|
                            0 <= f < ww && #[trigger] cell(ff, hh, x as int, f) == v;
                        assert(occurs_in_prefix(ff, hh, x as int, ww, v));
                    }
                    if occurs_in_prefix(ff, hh, x as int, ww, v) {
                        let f = choose|f: int|
                            0 <= f < ww && #[trigger] cell(ff, hh, x as int, f) == v;
                        assert(occurs_in_row(ff, ww, hh, x as int, v));
                    }
                }
            }
        }
        x += 1;
    }
    let last_column = if last_different >= last_unique {
        last_different
    } else {
        last_unique
    };
    proof {
        lemma_last_diff_bound(ff, ww, hh, hh);
        lemma_last_new_bound(ff, ww, hh, hh);
        assert(last_column as int == last_informative(ff, ww, hh));
        assert(last_column < h);
    }
    let slot_count = last_column + 1;
    let mut skins: Vec<MDLSkin> = Vec::new();
    let mut f: usize = 0;
    while f < w
        invariant
            ww == families as int,
            hh == references as int,
            w == ww,
            h == hh,
            ff == flat@,
            ff.len() == ww * hh,
            ff.len() <= usize::MAX,
            f <= w,
            slot_count == last_informative(ff, ww, hh) + 1,
            slot_count <= h,
            skins@.len() == f as int,
            forall|f2: int| 0 <= f2 < f as int ==> (#[trigger] skins@[f2]).0@.len() == slot_count,
            forall|f2: int, s: int|
                0 <= f2 < f as int && 0 <= s < slot_count ==> #[trigger] skins@[f2].0@[s] == cell(
                    ff,
                    hh,
                    s,
                    f2,
                ),
        decreases w - f,
    {
        let mut slots: Vec<u16> = Vec::new();
        let mut s: usize = 0;
        while s < slot_count
            invariant
                ww == families as int,
                hh == references as int,
                w == ww,
                h == hh,
                ff == flat@,
                ff.len() == ww * hh,
                ff.len() <= usize::MAX,
            ff.len() <= usize::MAX,
                f < w,
                s <= slot_count,
                slot_count <= h,
                slots@.len() == s as int,
                forall|s2: int|
                    0 <= s2 < s as int ==> #[trigger] slots@[s2] == cell(ff, hh, s2, f as int),
            decreases slot_count - s,
        {
            proof {
                assert((f as int) * hh + (s as int) < ww * hh) by (nonlinear_arith)
                    requires
                        0 <= (f as int) < ww,
                        0 <= (s as int) < hh,
                ;
            }
            slots.push(flat[f * h + s]);
            s += 1;
        }
        skins.push(MDLSkin(slots));
        f += 1;
    }
    proof {
        assert(slot_count as int == last_informative(ff, ww, hh) + 1);
    }
    (slot_count as u32, skins)
}

proof fn lemma_nul_scan_stops(b: Seq<u8>, start: int, end: int, i: int)
    requires
        start <= i <= end,
        forall|j: int| start <= j < i ==> b[j] != 0,
        i < end ==> b[i] == 0,
    ensures
        nul_scan(b, start, end) == i,
    decreases i - start,
{
    if start < i {
        lemma_nul_scan_stops(b, start + 1, end, i);
    }
}

/// The zero-terminated string that starts at `start`, capped at `cap`
/// bytes, as `cstr_window` states it.
fn read_cstr(b: &Vec<u8>, start: u64, cap: u64) -> (r: String)
    requires
        cap <= 4096,
    ensures
        r@ == cstr_window(b@, start as int, cap as int),
{
    let len = b.len() as u64;
    if start >= len {
        return String::new();
    }
    let e = if cap < len - start {
        start + cap
    } else {
        len
    };
    let mut i: u64 = start;
    while i < e && byte_at(b, i) != 0
        invariant
            len == b@.len(),
            start <= i <= e <= len,
            e <= start + cap,
            forall|j: int| start <= j < i ==> b@[j] != 0,
        decreases e - i,
    {
        i += 1;
    }
    if i == e {
        proof {
            lemma_nul_scan_stops(b@, start as int, e as int, e as int);
        }
        return String::new();
    }
    proof {
        lemma_nul_scan_stops(b@, start as int, e as int, i as int);
    }
    let mut v: Vec<char> = Vec::new();
    let mut j: u64 = start;
    while j < i
        invariant
            len == b@.len(),
            start <= j <= i < e <= len,
            v@ == b@.subrange(start as int, j as int).map_values(|x: u8| byte_char(x)),
        decreases i - j,
    {
        v.push(byte_at(b, j) as char);
        j += 1;
        proof {
            assert(b@.subrange(start as int, j as int).map_values(|x: u8| byte_char(x)) =~= b@
                .subrange(start as int, j - 1).map_values(|x: u8| byte_char(x)).push(
                byte_char(b@[j - 1]),
            ));
        }
    }
    string_of_chars(&v)
}

/// Whether the buffer begins with the model signature `IDST`.
pub open spec fn magic_ok(b: Seq<u8>) -> bool {
    b.len() >= 4 && b[0] == 73 && b[1] == 68 && b[2] == 83 && b[3] == 84
}

/// The embedded model name: the zero-padded 64-byte field after the
/// version and checksum words.
pub open spec fn spec_name(b: Seq<u8>) -> Seq<char> {
    cstr_window(b, 12, 64)
}

/// The number of texture name table entries.
pub open spec fn spec_tex_count(b: Seq<u8>) -> u32 {
    le_u32_at(b, 172)
}

/// The file offset of the texture name table.
pub open spec fn spec_tex_offset(b: Seq<u8>) -> u32 {
    le_u32_at(b, 176)
}

/// The number of texture directory table entries.
pub open spec fn spec_dir_count(b: Seq<u8>) -> u32 {
    le_u32_at(b, 180)
}

/// The file offset of the texture directory table.
pub open spec fn spec_dir_offset(b: Seq<u8>) -> u32 {
    le_u32_at(b, 184)
}

/// The number of skin reference slots per family.
pub open spec fn spec_sref_count(b: Seq<u8>) -> u32 {
    le_u32_at(b, 188)
}

/// The number of skin families.
pub open spec fn spec_sfam_count(b: Seq<u8>) -> u32 {
    le_u32_at(b, 192)
}

/// The file offset of the skin remap table.
pub open spec fn spec_sref_index(b: Seq<u8>) -> u32 {
    le_u32_at(b, 196)
}

/// The offset of texture table entry `i`: entries are 64 bytes wide.
pub open spec fn spec_tex_entry(b: Seq<u8>, i: int) -> int {
    spec_tex_offset(b) + 64 * i
}

/// Whether every texture table entry's leading offset word lies inside the
/// buffer.
pub open spec fn textures_readable(b: Seq<u8>) -> bool {
    forall|i: int| 0 <= i < spec_tex_count(b) ==> #[trigger] spec_tex_entry(b, i) + 4 <= b.len()
}

/// Texture name `i`: the zero-terminated string the entry's relative
/// offset points at, capped at 256 bytes.
pub open spec fn spec_tex_name(b: Seq<u8>, i: int) -> Seq<char> {
    cstr_window(b, spec_tex_entry(b, i) + le_u32_at(b, spec_tex_entry(b, i)), 256)
}

/// The offset of directory table entry `i`: entries are 4 bytes wide.
pub open spec fn spec_dir_entry(b: Seq<u8>, i: int) -> int {
    spec_dir_offset(b) + 4 * i
}

/// Whether every directory table entry lies inside the buffer.
pub open spec fn dirs_readable(b: Seq<u8>) -> bool {
    forall|i: int| 0 <= i < spec_dir_count(b) ==> #[trigger] spec_dir_entry(b, i) + 4 <= b.len()
}

/// Directory name `i`: the zero-terminated string at the entry's absolute
/// offset, capped at 256 bytes.
pub open spec fn spec_dir_name(b: Seq<u8>, i: int) -> Seq<char> {
    cstr_window(b, le_u32_at(b, spec_dir_entry(b, i)) as int, 256)
}

/// How many 16-bit cells the skin remap table holds.
pub open spec fn spec_skin_cells(b: Seq<u8>) -> int {
    (spec_sfam_count(b) as int) * (spec_sref_count(b) as int)
}

/// Whether the whole skin remap table lies inside the buffer (or holds no
/// cell at all).
pub open spec fn skins_readable(b: Seq<u8>) -> bool {
    spec_skin_cells(b) == 0 || spec_sref_index(b) + 2 * spec_skin_cells(b) <= b.len()
}

/// The skin remap table, flat, in read order (family-major).
pub open spec fn spec_skin_flat(b: Seq<u8>) -> Seq<u16> {
    Seq::new(
        spec_skin_cells(b) as nat,
        |c: int| le_u16_at(b, spec_sref_index(b) + 2 * c),
    )
}

/// Whether a buffer decodes without error: the signature matches, the
/// fixed-width header is complete, and all three tables lie inside the
/// buffer.
pub open spec fn decode_ok(b: Seq<u8>) -> bool {
    &&& magic_ok(b)
    &&& b.len() >= 200
    &&& textures_readable(b)
    &&& dirs_readable(b)
    &&& skins_readable(b)
}

/// The error a failing decode reports: a wrong signature is a header
/// error; everything else is a failed read.
pub open spec fn decode_error(b: Seq<u8>) -> Error {
    if b.len() >= 4 && !magic_ok(b) {
        Error::InvalidHeader
    } else {
        Error::Io
    }
}

/// Decodes a compiled-model buffer into a `PartialMDL`.
///
/// Succeeds exactly when `decode_ok` holds of the bytes; a buffer whose
/// first four bytes are present but wrong fails with `InvalidHeader`, and
/// any read falling outside the buffer fails with `Io`.  When the family
/// count is zero, skin processing is skipped and no skins are reported;
/// when the reference count is zero, every family gets an empty variant.
pub fn read(bytes: &Vec<u8>) -> (r: Result<PartialMDL, Error>)
    ensures
        r is Ok <==> decode_ok(bytes@),
        r matches Err(e) ==> e == decode_error(bytes@),
        r matches Ok(m) ==> {
            &&& m.name@ == spec_name(bytes@)
            &&& m.texture_names@.len() == spec_tex_count(bytes@) as int
            &&& (forall|i: int|
                0 <= i < spec_tex_count(bytes@) as int ==> (#[trigger] m.texture_names@[i])@
                    == spec_tex_name(bytes@, i))
            &&& m.texture_dirs@.len() == spec_dir_count(bytes@) as int
            &&& (forall|i: int|
                0 <= i < spec_dir_count(bytes@) as int ==> (#[trigger] m.texture_dirs@[i])@
                    == spec_dir_name(bytes@, i))
            &&& m.skin_count == spec_sfam_count(bytes@)
            &&& (spec_sfam_count(bytes@) == 0 ==> m.skins@.len() == 0 && m.texture_slot_count
                == 0)
            &&& (spec_sfam_count(bytes@) > 0 && spec_sref_count(bytes@) == 0 ==> m.skins@.len()
                == spec_sfam_count(bytes@) as int && m.texture_slot_count == 0 && (forall|f: int|
                0 <= f < m.skins@.len() ==> (#[trigger] m.skins@[f]).0@.len() == 0))
            &&& (spec_sfam_count(bytes@) > 0 && spec_sref_count(bytes@) > 0 ==> {
                let flat = spec_skin_flat(bytes@);
                let w = spec_sfam_count(bytes@) as int;
                let h = spec_sref_count(bytes@) as int;
                &&& m.texture_slot_count == last_informative(flat, w, h) + 1
                &&& m.skins@.len() == w
                &&& (forall|f: int|
                    0 <= f < w ==> (#[trigger] m.skins@[f]).0@.len() == m.texture_slot_count)
                &&& (forall|f: int, sl: int|
                    0 <= f < w && 0 <= sl < m.texture_slot_count ==> #[trigger] m.skins@[f].0@[sl]
                        == cell(flat, h, sl, f))
            })
        },
{
    let ghost bb = bytes@;
    let len = bytes.len() as u64;
    if len < 4 {
        return Err(Error::Io);
    }
    if !(byte_at(bytes, 0) == 73 && byte_at(bytes, 1) == 68 && byte_at(bytes, 2) == 83 && byte_at(
        bytes,
        3,
    ) == 84) {
        return Err(Error::InvalidHeader);
    }
    if len < 200 {
        return Err(Error::Io);
    }
    let tex_count = match read_u32_le(bytes, 172) {
        Some(v) => v,
        None => {
            return Err(Error::Io);
        },
    };
    let tex_offset = match read_u32_le(bytes, 176) {
        Some(v) => v,
        None => {
            return Err(Error::Io);
        },
    };
    let dir_count = match read_u32_le(bytes, 180) {
        Some(v) => v,
        None => {
            return Err(Error::Io);
        },
    };
    let dir_offset = match read_u32_le(bytes, 184) {
        Some(v) => v,
        None => {
            return Err(Error::Io);
        },
    };
    let sref_count = match read_u32_le(bytes, 188) {
        Some(v) => v,
        None => {
            return Err(Error::Io);
        },
    };
    let sfam_count = match read_u32_le(bytes, 192) {
        Some(v) => v,
        None => {
            return Err(Error::Io);
        },
    };
    let sref_index = match read_u32_le(bytes, 196) {
        Some(v) => v,
        None => {
            return Err(Error::Io);
        },
    };
    let name = read_cstr(bytes, 12, 64);

    let mut texture_names: Vec<String> = Vec::new();
    let mut i: u32 = 0;
    while i < tex_count
        invariant
            bb == bytes@,
            len == bb.len(),
            len >= 200,
            magic_ok(bb),
            tex_count == spec_tex_count(bb),
            tex_offset == spec_tex_offset(bb),
            i <= tex_count,
            texture_names@.len() == i as int,
            forall|i2: int| 0 <= i2 < i as int ==> #[trigger] spec_tex_entry(bb, i2) + 4 <= len,
            forall|i2: int|
                0 <= i2 < i as int ==> (#[trigger] texture_names@[i2])@ == spec_tex_name(bb, i2),
        decreases tex_count - i,
    {
        let e = (tex_offset as u64) + 64 * (i as u64);
        proof {
            assert(e as int == spec_tex_entry(bb, i as int));
        }
        let noff = match read_u32_le(bytes, e) {
            Some(v) => v,
            None => {
                proof {
                    assert(!textures_readable(bb));
                }
                return Err(Error::Io);
            },
        };
        let nm = read_cstr(bytes, e + (noff as u64), 256);
        texture_names.push(nm);
        i += 1;
    }

    let mut texture_dirs: Vec<String> = Vec::new();
    let mut i: u32 = 0;
    while i < dir_count
        invariant
            bb == bytes@,
            len == bb.len(),
            len >= 200,
            magic_ok(bb),
            dir_count == spec_dir_count(bb),
            dir_offset == spec_dir_offset(bb),
            i <= dir_count,
            texture_dirs@.len() == i as int,
            forall|i2: int| 0 <= i2 < i as int ==> #[trigger] spec_dir_entry(bb, i2) + 4 <= len,
            forall|i2: int|
                0 <= i2 < i as int ==> (#[trigger] texture_dirs@[i2])@ == spec_dir_name(bb, i2),
        decreases dir_count - i,
    {
        let d = (dir_offset as u64) + 4 * (i as u64);
        proof {
            assert(d as int == spec_dir_entry(bb, i as int));
        }
        let abs = match read_u32_le(bytes, d) {
            Some(v) => v,
            None => {
                proof {
                    assert(!dirs_readable(bb));
                }
                return Err(Error::Io);
            },
        };
        let nm = read_cstr(bytes, abs as u64, 256);
        texture_dirs.push(nm);
        i += 1;
    }

    proof {
        assert((sfam_count as int) * (sref_count as int) <= 0xffff_ffff * 0xffff_ffff)
            by (nonlinear_arith)
            requires
                0 <= sfam_count as int <= 0xffff_ffff,
                0 <= sref_count as int <= 0xffff_ffff,
        ;
    }
    let cells: u64 = (sfam_count as u64) * (sref_count as u64);
    proof {
        assert(cells as int == spec_skin_cells(bb));
    }
    if cells > 0 && (sref_index as u128) + 2 * (cells as u128) > (len as u128) {
        proof {
            assert(!skins_readable(bb));
        }
        return Err(Error::Io);
    }
    proof {
        assert(skins_readable(bb));
        assert(decode_ok(bb));
    }
    let texture_slot_count: u32;
    let skins: Vec<MDLSkin>;
    if sfam_count == 0 {
        texture_slot_count = 0;
        skins = Vec::new();
    } else if sref_count == 0 {
        texture_slot_count = 0;
        let mut sk: Vec<MDLSkin> = Vec::new();
        let mut f: u32 = 0;
        while f < sfam_count
            invariant
                f <= sfam_count,
                sk@.len() == f as int,
                forall|f2: int| 0 <= f2 < f as int ==> (#[trigger] sk@[f2]).0@.len() == 0,
            decreases sfam_count - f,
        {
            sk.push(MDLSkin(Vec::new()));
            f += 1;
        }
        skins = sk;
    } else {
        proof {
            assert(cells as int > 0) by (nonlinear_arith)
                requires
                    cells as int == (sfam_count as int) * (sref_count as int),
                    sfam_count as int >= 1,
                    sref_count as int >= 1,
            ;
        }
        let mut flat: Vec<u16> = Vec::new();
        let mut c: u64 = 0;
        while c < cells
            invariant
                bb == bytes@,
                len == bb.len(),
                cells as int == spec_skin_cells(bb),
                sref_index == spec_sref_index(bb),
                (sref_index as int) + 2 * (cells as int) <= len,
                c <= cells,
                flat@.len() == c as int,
                forall|c2: int|
                    0 <= c2 < c as int ==> #[trigger] flat@[c2] == le_u16_at(
                        bb,
                        spec_sref_index(bb) + 2 * c2,
                    ),
            decreases cells - c,
        {
            let off = (sref_index as u64) + 2 * c;
            let v = match read_u16_le(bytes, off) {
                Some(v) => v,
                None => {
                    return Err(Error::Io);
                },
            };
            flat.push(v);
            c += 1;
        }
        proof {
            assert(flat@ =~= spec_skin_flat(bb));
            assert(flat@.len() == (sfam_count as int) * (sref_count as int));
        }
        let (slot, sk) = compact_skin_table(&flat, sfam_count, sref_count);
        texture_slot_count = slot;
        skins = sk;
    }
    Ok(
        PartialMDL {
            name,
            texture_names,
            texture_dirs,
            skin_count: sfam_count,
            texture_slot_count,
            skins,
        },
    )
}

} // verus!
