//! Data-run decoding for non-resident attributes.
//!
//! Only used to locate the $MFT itself (record 0's $DATA runs); file sizes
//! come straight from attribute headers, never from runs.

use vstd::prelude::*;

use crate::ntfs::{ParseError, int_le, le_at, le_signed, uint_le};

verus! {

/// One contiguous stretch of an attribute's data on disk, in clusters.
#[derive(Clone, Copy, Debug, PartialEq, Eq, Structural)]
pub struct Extent {
    pub lcn: u64,
    pub clusters: u64,
}

/// `pre` in front of a successful decode; errors pass through.
pub open spec fn prepend(pre: Seq<Extent>, r: Result<Seq<Extent>, ParseError>) -> Result<Seq<Extent>, ParseError> {
    match r {
        Ok(s) => Ok(pre + s),
        Err(e) => Err(e),
    }
}

/// The run list starting at `pos`, with `lcn` the previous run's cluster.
///
/// Each run is `[header][length bytes][offset bytes]`: the header's low
/// nibble is the length field's width and its high nibble the offset
/// field's; the offset is a signed delta from the previous run's LCN; a zero
/// header ends the list. Sparse runs (offset width 0) are refused.
pub open spec fn run_list(data: Seq<u8>, pos: int, lcn: int) -> Result<Seq<Extent>, ParseError>
    decreases data.len() - pos,
{
    if pos < 0 || pos >= data.len() {
        Err(ParseError("run list missing terminator"))
    } else {
        let header = data[pos];
        let lw = header % 16;
        let ow = header / 16;
        let end = pos + 1 + lw + ow;
        if header == 0 {
            Ok(Seq::empty())
        } else if lw == 0 || lw > 8 || ow > 8 {
            Err(ParseError("run header has implausible field widths"))
        } else if ow == 0 {
            Err(ParseError("sparse run in a run list that must be dense"))
        } else if end > data.len() {
            Err(ParseError("run list truncated"))
        } else {
            let clusters = le_at(data, pos + 1, lw as int);
            let next = lcn + le_signed(data.subrange(pos + 1 + lw, end));
            if next > i64::MAX {
                Err(ParseError("run LCN overflow"))
            } else if next < 0 {
                Err(ParseError("run points before the volume start"))
            } else if clusters == 0 {
                Err(ParseError("zero-length run"))
            } else {
                prepend(seq![Extent { lcn: next as u64, clusters: clusters as u64 }], run_list(data, end, next))
            }
        }
    }
}

/// Decodes a run list into absolute extents.
pub fn decode_runs(data: &[u8]) -> (r: Result<Vec<Extent>, ParseError>)
    ensures
        match run_list(data@, 0, 0) {
            Ok(s) => r matches Ok(v) && v@ == s,
            Err(e) => r == Err::<Vec<Extent>, ParseError>(e),
        },
{
    let mut extents: Vec<Extent> = Vec::new();
    let mut pos: usize = 0;
    let mut lcn: i64 = 0;
    proof {
        assert(prepend(Seq::<Extent>::empty(), run_list(data@, 0, 0)) =~= run_list(data@, 0, 0)) by {
            match run_list(data@, 0, 0) {
                Ok(s) => {
                    assert(Seq::<Extent>::empty() + s =~= s);
                },
                Err(e) => {},
            }
        }
    }
    while pos < data.len()
        invariant
            0 <= pos <= data@.len(),
            lcn >= 0,
            run_list(data@, 0, 0) == prepend(extents@, run_list(data@, pos as int, lcn as int)),
        decreases data@.len() - pos,
    {
        let header = data[pos];
        if header == 0 {
            proof {
                assert(run_list(data@, pos as int, lcn as int) == Ok::<Seq<Extent>, ParseError>(Seq::empty()));
                assert(extents@ + Seq::<Extent>::empty() =~= extents@);
            }
            return Ok(extents);
        }
        let ghost start = pos as int;
        pos = pos + 1;
        let len_width = (header % 16) as usize;
        let off_width = (header / 16) as usize;
        if len_width == 0 || len_width > 8 || off_width > 8 {
            return Err(ParseError("run header has implausible field widths"));
        }
        if off_width == 0 {
            return Err(ParseError("sparse run in a run list that must be dense"));
        }
        if len_width + off_width > data.len() - pos {
            return Err(ParseError("run list truncated"));
        }
        let end = pos + len_width + off_width;
        let clusters = uint_le(data, pos, len_width);
        let delta = int_le(data, pos + len_width, off_width);
        pos = end;
        let next = match lcn.checked_add(delta) {
            Some(v) => v,
            None => {
                return Err(ParseError("run LCN overflow"));
            },
        };
        lcn = next;
        if lcn < 0 {
            return Err(ParseError("run points before the volume start"));
        }
        if clusters == 0 {
            return Err(ParseError("zero-length run"));
        }
        let ghost old_ext = extents@;
        extents.push(Extent { lcn: lcn as u64, clusters });
        proof {
            let e = Extent { lcn: lcn as u64, clusters };
            match run_list(data@, pos as int, lcn as int) {
                Ok(s) => {
                    assert(old_ext + (seq![e] + s) =~= old_ext.push(e) + s);
                },
                Err(err) => {},
            }
        }
    }
    Err(ParseError("run list missing terminator"))
}

/// The extents a volume's retrieval-pointer reply describes: starting at
/// virtual cluster `vcn`, each `(next_vcn, lcn)` pair from `i` on covers
/// `vcn .. next_vcn` at `lcn`. A pair that does not advance, or that names
/// no cluster on the volume (negative `lcn`), is refused.
pub open spec fn retrieval_extents(vcn: int, pairs: Seq<(i64, i64)>, i: int) -> Result<Seq<Extent>, ParseError>
    decreases pairs.len() - i,
{
    if i < 0 || i >= pairs.len() {
        Ok(Seq::empty())
    } else {
        let (next, lcn) = pairs[i];
        if lcn < 0 || next <= vcn {
            Err(ParseError("unexpected virtual extent in $MFT"))
        } else {
            prepend(seq![Extent { lcn: lcn as u64, clusters: (next - vcn) as u64 }], retrieval_extents(next as int, pairs, i + 1))
        }
    }
}

/// Turns a retrieval-pointer reply (its starting virtual cluster and its
/// `(next_vcn, lcn)` pairs) into the extents of the file it maps.
pub fn extents_from_retrieval(start_vcn: i64, pairs: &Vec<(i64, i64)>) -> (r: Result<Vec<Extent>, ParseError>)
    ensures
        match retrieval_extents(start_vcn as int, pairs@, 0) {
            Ok(es) => r matches Ok(v) && v@ == es,
            Err(e) => r == Err::<Vec<Extent>, ParseError>(e),
        },
{
    let mut out: Vec<Extent> = Vec::new();
    let mut vcn = start_vcn;
    let mut i: usize = 0;
    proof {
        assert(out@ + Seq::<Extent>::empty() =~= out@);
    }
    while i < pairs.len()
        invariant
            i <= pairs@.len(),
            retrieval_extents(start_vcn as int, pairs@, 0) == prepend(out@, retrieval_extents(vcn as int, pairs@, i as int)),
        decreases pairs@.len() - i,
    {
        let (next, lcn) = pairs[i];
        if lcn < 0 || next <= vcn {
            return Err(ParseError("unexpected virtual extent in $MFT"));
        }
        let clusters = (next as i128 - vcn as i128) as u64;
        let ghost before = out@;
        let ghost rest = retrieval_extents(next as int, pairs@, i + 1);
        out.push(Extent { lcn: lcn as u64, clusters });
        proof {
            match rest {
                Ok(t) => {
                    assert(before + (seq![Extent { lcn: lcn as u64, clusters }] + t) =~= out@ + t);
                },
                Err(_) => {},
            }
        }
        vcn = next;
        i = i + 1;
    }
    proof {
        assert(out@ + Seq::<Extent>::empty() =~= out@);
    }
    Ok(out)
}

} // verus!
