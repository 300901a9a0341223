//! Source maps: the decoded mapping model handed back by the style
//! preprocessor, and the position remapping used to translate diagnostics
//! in generated CSS back to the original source.
//!
//! The remapping itself is a pure function over the decoded mappings, so it
//! can be exercised with synthetic mappings independently of any
//! preprocessor.

use vstd::prelude::*;

verus! {

/// Where a generated position came from.
#[derive(Clone, Copy, PartialEq, Eq, Structural, Debug)]
pub struct MappingOrigin {
    /// Index into the source map's `sources`.
    pub source: usize,
    /// 0-based line in the original source.
    pub line: usize,
    /// 0-based column in the original source.
    pub col: usize,
}

/// One decoded mapping segment: a generated position and, when present,
/// the original position it maps back to.
#[derive(Clone, Copy, PartialEq, Eq, Structural, Debug)]
pub struct Mapping {
    /// 0-based line in the generated text.
    pub gen_line: usize,
    /// 0-based column in the generated text.
    pub gen_col: usize,
    pub origin: Option<MappingOrigin>,
}

/// A decoded source map.
#[derive(Debug)]
pub struct SourceMap {
    pub sources: Vec<String>,
    pub sources_content: Vec<String>,
    pub mappings: Vec<Mapping>,
}

/// Position order on generated positions: line-major, column-minor.
pub open spec fn pos_le(al: int, ac: int, bl: int, bc: int) -> bool {
    al < bl || (al == bl && ac <= bc)
}

/// The value of one base64 digit, or 64 for a character outside the
/// alphabet.
fn base64_value(c: char) -> (r: u8)
    ensures
        r <= 64,
{
    let u = c as u32;
    if 65 <= u && u <= 90 {
        (u - 65) as u8
    } else if 97 <= u && u <= 122 {
        (u - 97 + 26) as u8
    } else if 48 <= u && u <= 57 {
        (u - 48 + 52) as u8
    } else if c == '+' {
        62
    } else if c == '/' {
        63
    } else {
        64
    }
}

/// Decodes one base64 VLQ value at `*i`, advancing past it.
fn decode_vlq(cs: &Vec<char>, i: &mut usize) -> (r: Result<i64, ()>)
    requires
        *old(i) <= cs@.len(),
    ensures
        *old(i) <= *final(i) <= cs@.len(),
        r is Ok ==> *final(i) > *old(i),
        r matches Ok(v) ==> -0x7FFF_FFFF_FFFF_FFFFi64 <= v <= 0x7FFF_FFFF_FFFF_FFFFi64,
{
    let mut value: u64 = 0;
    let mut shift: u64 = 0;
    loop
        invariant
            *old(i) <= *i <= cs@.len(),
            shift <= 55,
        ensures
            *old(i) < *i <= cs@.len(),
        decreases cs@.len() - *i,
    {
        if *i >= cs.len() {
            return Err(());
        }
        let d = base64_value(cs[*i]);
        if d >= 64 {
            return Err(());
        }
        *i = *i + 1;
        let bits = (d & 31) as u64;
        value = value | (bits << shift);
        if d & 32 == 0 {
            break ;
        }
        if shift >= 50 {
            return Err(());
        }
        shift = shift + 5;
    }
    let mag = value >> 1;
    proof {
        assert(mag <= 0x7FFF_FFFF_FFFF_FFFFu64) by (bit_vector)
            requires
                mag == value >> 1,
        ;
    }
    if value & 1 == 1 {
        Ok(-(mag as i64))
    } else {
        Ok(mag as i64)
    }
}

/// Bounds used while accumulating relative mapping fields.
pub open spec fn field_max() -> int {
    0xFFFF_FFFF
}

/// Adds a decoded delta to an absolute field, refusing out-of-range
/// results.
fn apply_delta(base: i64, delta: i64) -> (r: Result<i64, ()>)
    requires
        0 <= base <= field_max(),
    ensures
        r matches Ok(v) ==> 0 <= v <= field_max(),
{
    if delta > 0xFFFF_FFFFi64 || delta < -0xFFFF_FFFFi64 {
        return Err(());
    }
    let v = base + delta;
    if 0 <= v && v <= 0xFFFF_FFFFi64 {
        Ok(v)
    } else {
        Err(())
    }
}

/// Decodes a `mappings` string (semicolon-separated generated lines of
/// comma-separated VLQ segments) into the flat mapping list.
pub fn parse_mappings(text: &str) -> (r: Result<Vec<Mapping>, ()>) {
    let cs = crate::text::chars_vec(text);
    let n = cs.len();
    let mut out: Vec<Mapping> = Vec::new();
    let mut i: usize = 0;
    let mut gen_line: usize = 0;
    let mut gen_col: i64 = 0;
    let mut src: i64 = 0;
    let mut orig_line: i64 = 0;
    let mut orig_col: i64 = 0;
    while i < n
        invariant
            i <= n,
            n == cs@.len(),
            0 <= gen_col <= field_max(),
            0 <= src <= field_max(),
            0 <= orig_line <= field_max(),
            0 <= orig_col <= field_max(),
        decreases n - i,
    {
        let c = cs[i];
        if c == ';' {
            if gen_line == usize::MAX {
                return Err(());
            }
            gen_line = gen_line + 1;
            gen_col = 0;
            i = i + 1;
            continue ;
        }
        if c == ',' {
            i = i + 1;
            continue ;
        }
        // One segment: 1, 4 or 5 fields (the 5th, a name index, is read
        // and dropped).
        let d0 = match decode_vlq(&cs, &mut i) {
            Ok(v) => v,
            Err(_) => {
                return Err(());
            },
        };
        gen_col = match apply_delta(gen_col, d0) {
            Ok(v) => v,
            Err(_) => {
                return Err(());
            },
        };
        let mut origin: Option<MappingOrigin> = None;
        if i < n && cs[i] != ',' && cs[i] != ';' {
            let d1 = match decode_vlq(&cs, &mut i) {
                Ok(v) => v,
                Err(_) => {
                    return Err(());
                },
            };
            src = match apply_delta(src, d1) {
                Ok(v) => v,
                Err(_) => {
                    return Err(());
                },
            };
            let d2 = match decode_vlq(&cs, &mut i) {
                Ok(v) => v,
                Err(_) => {
                    return Err(());
                },
            };
            orig_line = match apply_delta(orig_line, d2) {
                Ok(v) => v,
                Err(_) => {
                    return Err(());
                },
            };
            let d3 = match decode_vlq(&cs, &mut i) {
                Ok(v) => v,
                Err(_) => {
                    return Err(());
                },
            };
            orig_col = match apply_delta(orig_col, d3) {
                Ok(v) => v,
                Err(_) => {
                    return Err(());
                },
            };
            if i < n && cs[i] != ',' && cs[i] != ';' {
                let _name = match decode_vlq(&cs, &mut i) {
                    Ok(v) => v,
                    Err(_) => {
                        return Err(());
                    },
                };
            }
            origin = Some(
                MappingOrigin {
                    source: src as usize,
                    line: orig_line as usize,
                    col: orig_col as usize,
                },
            );
        }
        out.push(Mapping { gen_line, gen_col: gen_col as usize, origin });
    }
    Ok(out)
}

/// The greatest-lower-bound remapping policy: among the mappings whose
/// generated position is at or before the query, any of the greatest ones.
pub open spec fn is_glb_mapping(ms: Seq<Mapping>, line: int, col: int, k: int) -> bool {
    &&& 0 <= k < ms.len()
    &&& pos_le(ms[k].gen_line as int, ms[k].gen_col as int, line, col)
    &&& forall|j: int|
        0 <= j < ms.len() && pos_le(#[trigger] ms[j].gen_line as int, ms[j].gen_col as int, line, col)
            ==> pos_le(ms[j].gen_line as int, ms[j].gen_col as int, ms[k].gen_line as int, ms[k].gen_col as int)
}

impl SourceMap {
    /// The nearest mapping at or before generated `(line, col)`, by the
    /// greatest-lower-bound policy; `None` when every mapping lies after
    /// the query.
    pub fn original_location_for(&self, line: usize, col: usize) -> (r: Option<Mapping>)
        ensures
            match r {
                Some(m) => exists|k: int|
                    is_glb_mapping(self.mappings@, line as int, col as int, k)
                        && self.mappings@[k] == m,
                None => forall|j: int|
                    0 <= j < self.mappings@.len() ==> !pos_le(
                        #[trigger] self.mappings@[j].gen_line as int,
                        self.mappings@[j].gen_col as int,
                        line as int,
                        col as int,
                    ),
            },
    {
        let ms = &self.mappings;
        let mut best: Option<usize> = None;
        let mut j: usize = 0;
        while j < ms.len()
            invariant
                j <= ms@.len(),
                match best {
                    Some(b) => {
                        &&& b < j <= ms@.len()
                        &&& pos_le(
                            ms@[b as int].gen_line as int,
                            ms@[b as int].gen_col as int,
                            line as int,
                            col as int,
                        )
                        &&& forall|x: int|
                            0 <= x < j && pos_le(
                                #[trigger] ms@[x].gen_line as int,
                                ms@[x].gen_col as int,
                                line as int,
                                col as int,
                            ) ==> pos_le(
                                ms@[x].gen_line as int,
                                ms@[x].gen_col as int,
                                ms@[b as int].gen_line as int,
                                ms@[b as int].gen_col as int,
                            )
                    },
                    None => forall|x: int|
                        0 <= x < j ==> !pos_le(
                            #[trigger] ms@[x].gen_line as int,
                            ms@[x].gen_col as int,
                            line as int,
                            col as int,
                        ),
                },
            decreases ms@.len() - j,
        {
            let m = &ms[j];
            let le_query = m.gen_line < line || (m.gen_line == line && m.gen_col <= col);
            if le_query {
                let replace = match best {
                    Some(b) => {
                        let bm = &ms[b];
                        bm.gen_line < m.gen_line || (bm.gen_line == m.gen_line && bm.gen_col
                            <= m.gen_col)
                    },
                    None => true,
                };
                if replace {
                    best = Some(j);
                }
            }
            j = j + 1;
        }
        match best {
            Some(b) => {
                proof {
                    assert(is_glb_mapping(self.mappings@, line as int, col as int, b as int));
                }
                Some(ms[b])
            },
            None => None,
        }
    }
}

} // verus!
