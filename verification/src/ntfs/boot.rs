//! NTFS boot sector -> volume geometry and the $MFT's first cluster, plus
//! the read-plan validation that makes those disk-supplied sizes safe to
//! multiply and allocate with.

use vstd::arithmetic::power2::{is_pow2, pow2};
use vstd::prelude::*;

use crate::ntfs::runs::Extent;
use crate::ntfs::{ParseError, le_at, u16_at, u64_at};

verus! {

/// Everything the reader needs to interpret the volume, straight from the
/// boot sector. All sizes in bytes.
#[derive(Clone, Copy, Debug, PartialEq, Eq, Structural)]
pub struct Geometry {
    pub bytes_per_sector: u32,
    pub cluster_size: u32,
    /// FILE record size (1 KiB on almost every volume; 4 KiB on 4Kn disks).
    pub record_size: u32,
    /// First cluster of the $MFT (where FILE record 0 lives).
    pub mft_lcn: u64,
    pub total_clusters: u64,
}

impl Geometry {
    /// The byte offset of the $MFT. Callers must have run
    /// `geometry_fits_device` first, which bounds every in-volume offset.
    pub fn mft_byte_offset(&self) -> (r: u64)
        requires
            self.mft_lcn * self.cluster_size <= u64::MAX,
        ensures
            r == self.mft_lcn * self.cluster_size,
    {
        self.mft_lcn * self.cluster_size as u64
    }
}

/// The validated $MFT read plan, produced only by `plan_mft_read`.
#[derive(Clone, Copy, Debug, PartialEq, Eq, Structural)]
pub struct MftPlan {
    /// Bytes of FILE records to read ($DATA real size, extent-capped).
    pub mft_bytes: u64,
    /// `mft_bytes` in whole records; fits NTFS's 32-bit record-number space.
    pub total_records: u32,
}

/// `x` is a power of two.
pub fn is_power_of_two(x: u32) -> (r: bool)
    ensures
        r == is_pow2(x as int),
{
    reveal(is_pow2);
    if x == 0 {
        return false;
    }
    let mut v = x;
    while v > 1 && v % 2 == 0
        invariant
            v >= 1,
            is_pow2(v as int) == is_pow2(x as int),
        decreases v,
    {
        proof {
            reveal(is_pow2);
        }
        v = v / 2;
    }
    proof {
        reveal(is_pow2);
    }
    v == 1
}

/// Rejects geometry describing more volume than the device physically has.
pub fn geometry_fits_device(geometry: &Geometry, device_bytes: u64) -> (r: Result<(), ParseError>)
    ensures
        r == (if geometry.total_clusters * geometry.cluster_size <= device_bytes {
            Ok::<(), ParseError>(())
        } else {
            Err(ParseError("boot sector claims more space than the device"))
        }),
{
    match geometry.total_clusters.checked_mul(geometry.cluster_size as u64) {
        Some(bytes) => {
            if bytes <= device_bytes {
                Ok(())
            } else {
                Err(ParseError("boot sector claims more space than the device"))
            }
        },
        None => Err(ParseError("boot sector claims more space than the device")),
    }
}

/// Clusters covered by `es[i..]` on top of `covered`, or the first extent
/// that leaves the volume or overfills it.
pub open spec fn cover(total_clusters: u64, es: Seq<Extent>, i: int, covered: int) -> Result<int, ParseError>
    decreases es.len() - i,
{
    if i < 0 || i >= es.len() {
        Ok(covered)
    } else if es[i].lcn + es[i].clusters > total_clusters {
        Err(ParseError("$MFT extent beyond the volume end"))
    } else if covered + es[i].clusters > total_clusters {
        Err(ParseError("$MFT extents cover more than the volume"))
    } else {
        cover(total_clusters, es, i + 1, covered + es[i].clusters)
    }
}

/// The read plan for an $MFT of `data_size` bytes (`u64::MAX`: unknown) laid
/// out in `es`, on a volume of `device_bytes`.
pub open spec fn mft_plan(g: Geometry, es: Seq<Extent>, data_size: u64, device_bytes: u64) -> Result<MftPlan, ParseError> {
    if g.total_clusters * g.cluster_size > device_bytes {
        Err(ParseError("boot sector claims more space than the device"))
    } else {
        match cover(g.total_clusters, es, 0, 0) {
            Err(e) => Err(e),
            Ok(covered) => {
                let bytes = covered * g.cluster_size;
                let mft_bytes = if data_size < bytes { data_size as int } else { bytes };
                let records = mft_bytes / g.record_size as int;
                if records == 0 {
                    Err(ParseError("$MFT extent map is empty"))
                } else if records > u32::MAX {
                    Err(ParseError("implausible $MFT record count"))
                } else {
                    Ok(MftPlan { mft_bytes: mft_bytes as u64, total_records: records as u32 })
                }
            },
        }
    }
}

proof fn lemma_cover_bound(total: u64, es: Seq<Extent>, i: int, covered: int)
    requires
        0 <= covered <= total,
    ensures
        cover(total, es, i, covered) matches Ok(c) ==> covered <= c <= total,
    decreases es.len() - i,
{
    if 0 <= i < es.len() && es[i].lcn + es[i].clusters <= total && covered + es[i].clusters <= total {
        lemma_cover_bound(total, es, i + 1, covered + es[i].clusters);
    }
}

/// Validates the $MFT's self-description against the volume's geometry and
/// the device's real size. Afterwards every extent read offset and the
/// record table's size are bounded by `device_bytes` and overflow-free.
pub fn plan_mft_read(geometry: &Geometry, extents: &[Extent], data_size: u64, device_bytes: u64) -> (r: Result<MftPlan, ParseError>)
    requires
        geometry.record_size > 0,
    ensures
        r == mft_plan(*geometry, extents@, data_size, device_bytes),
{
    match geometry_fits_device(geometry, device_bytes) {
        Ok(()) => {},
        Err(e) => {
            return Err(e);
        },
    }
    let mut covered: u64 = 0;
    let mut i: usize = 0;
    while i < extents.len()
        invariant
            i <= extents@.len(),
            covered <= geometry.total_clusters,
            geometry.total_clusters * geometry.cluster_size <= device_bytes,
            cover(geometry.total_clusters, extents@, 0, 0) == cover(geometry.total_clusters, extents@, i as int, covered as int),
        decreases extents@.len() - i,
    {
        let e = extents[i];
        proof {
            assert(e == extents@[i as int]);
            lemma_cover_bound(geometry.total_clusters, extents@, i as int, covered as int);
        }
        match e.lcn.checked_add(e.clusters) {
            Some(end) => {
                if end > geometry.total_clusters {
                    return Err(ParseError("$MFT extent beyond the volume end"));
                }
            },
            None => {
                return Err(ParseError("$MFT extent beyond the volume end"));
            },
        }
        covered = match covered.checked_add(e.clusters) {
            Some(c) => {
                if c <= geometry.total_clusters {
                    c
                } else {
                    return Err(ParseError("$MFT extents cover more than the volume"));
                }
            },
            None => {
                return Err(ParseError("$MFT extents cover more than the volume"));
            },
        };
        i = i + 1;
    }
    proof {
        assert(covered * geometry.cluster_size <= geometry.total_clusters * geometry.cluster_size) by (nonlinear_arith)
            requires
                covered <= geometry.total_clusters,
        ;
    }
    let bytes = covered * geometry.cluster_size as u64;
    let mft_bytes = if data_size < bytes { data_size } else { bytes };
    let total_records = mft_bytes / geometry.record_size as u64;
    if total_records == 0 {
        return Err(ParseError("$MFT extent map is empty"));
    }
    if total_records > 0xFFFF_FFFF {
        return Err(ParseError("implausible $MFT record count"));
    }
    Ok(MftPlan { mft_bytes, total_records: total_records as u32 })
}

/// The OEM id of an NTFS volume: "NTFS" and four spaces.
pub open spec fn ntfs_oem() -> Seq<u8> {
    seq![0x4Eu8, 0x54u8, 0x46u8, 0x53u8, 0x20u8, 0x20u8, 0x20u8, 0x20u8]
}

/// The signed value of an encoding byte.
pub open spec fn signed_byte(b: u8) -> int {
    if b < 128 {
        b as int
    } else {
        b - 256
    }
}

/// Sectors per cluster: a plain count, or for clusters over 64 KiB a
/// negative power-of-two exponent.
pub open spec fn sectors_per_cluster(b: u8) -> Option<nat> {
    let n = signed_byte(b);
    if n > 0 {
        Some(n as nat)
    } else if -25 <= n < 0 {
        Some(pow2((-n) as nat))
    } else {
        None
    }
}

/// The geometry a boot sector describes, or why it is refused.
pub open spec fn boot_geometry(s: Seq<u8>) -> Result<Geometry, ParseError> {
    if s.len() < 512 {
        Err(ParseError("boot sector shorter than 512 bytes"))
    } else if s.subrange(3, 11) != ntfs_oem() {
        Err(ParseError("not an NTFS volume (OEM id)"))
    } else if s[510] != 0x55 || s[511] != 0xAA {
        Err(ParseError("boot sector signature missing"))
    } else {
        let bps = le_at(s, 11, 2);
        if !(512 <= bps <= 4096) || !is_pow2(bps as int) {
            Err(ParseError("implausible bytes per sector"))
        } else {
            match sectors_per_cluster(s[13]) {
                None => Err(ParseError("implausible sectors per cluster")),
                Some(spc) => {
                    let cluster = bps * spc;
                    if cluster > u32::MAX {
                        Err(ParseError("cluster size overflow"))
                    } else if cluster > 2 * 1024 * 1024 || !is_pow2(cluster as int) {
                        Err(ParseError("implausible cluster size"))
                    } else {
                        let total_sectors = le_at(s, 0x28, 8);
                        let mft_lcn = le_at(s, 0x30, 8);
                        let total_clusters = total_sectors / spc;
                        let rc = signed_byte(s[0x40]);
                        if mft_lcn == 0 || mft_lcn >= total_clusters {
                            Err(ParseError("$MFT cluster out of range"))
                        } else if rc > 0 && rc * cluster > u32::MAX {
                            Err(ParseError("record size overflow"))
                        } else if !(rc > 0 || -31 <= rc < 0) {
                            Err(ParseError("implausible record size encoding"))
                        } else {
                            let record = if rc > 0 { rc * cluster } else { pow2((-rc) as nat) as int };
                            if !(512 <= record <= 65536) || !is_pow2(record) {
                                Err(ParseError("implausible FILE record size"))
                            } else {
                                Ok(Geometry {
                                    bytes_per_sector: bps as u32,
                                    cluster_size: cluster as u32,
                                    record_size: record as u32,
                                    mft_lcn: mft_lcn as u64,
                                    total_clusters: total_clusters as u64,
                                })
                            }
                        }
                    }
                },
            }
        }
    }
}

/// `2^k` for `k < 32`.
fn pow2_u32(k: u32) -> (r: u32)
    requires
        k < 32,
    ensures
        r == pow2(k as nat),
        r > 0,
{
    proof {
        vstd::arithmetic::power2::lemma_pow2_pos(k as nat);
        vstd::bits::lemma_u32_pow2_no_overflow(k as nat);
        vstd::bits::lemma_u32_shl_is_mul(1, k);
    }
    1u32 << k
}

/// Parses the first sector of an NTFS volume. Accepts at least 512 bytes.
pub fn parse_boot_sector(sector: &[u8]) -> (r: Result<Geometry, ParseError>)
    ensures
        r == boot_geometry(sector@),
{
    if sector.len() < 512 {
        return Err(ParseError("boot sector shorter than 512 bytes"));
    }
    let oem: [u8; 8] = [0x4E, 0x54, 0x46, 0x53, 0x20, 0x20, 0x20, 0x20];
    let mut k: usize = 0;
    while k < 8
        invariant
            k <= 8,
            sector@.len() >= 512,
            oem@ == ntfs_oem(),
            forall|j: int| 0 <= j < k ==> sector@[3 + j] == ntfs_oem()[j],
        decreases 8 - k,
    {
        if sector[3 + k] != oem[k] {
            proof {
                assert(sector@.subrange(3, 11)[k as int] != ntfs_oem()[k as int]);
            }
            return Err(ParseError("not an NTFS volume (OEM id)"));
        }
        k = k + 1;
    }
    proof {
        assert(sector@.subrange(3, 11) =~= ntfs_oem());
    }
    if sector[510] != 0x55 || sector[511] != 0xAA {
        return Err(ParseError("boot sector signature missing"));
    }
    let bytes_per_sector = u16_at(sector, 11) as u32;
    if !(512 <= bytes_per_sector && bytes_per_sector <= 4096) || !is_power_of_two(bytes_per_sector) {
        return Err(ParseError("implausible bytes per sector"));
    }
    let spc_byte = sector[13];
    let sectors_per_cluster: u32 = if 0 < spc_byte && spc_byte < 128 {
        spc_byte as u32
    } else if spc_byte >= 231 {
        pow2_u32((256 - spc_byte as u32) as u32)
    } else {
        return Err(ParseError("implausible sectors per cluster"));
    };
    let cluster_size = match bytes_per_sector.checked_mul(sectors_per_cluster) {
        Some(c) => c,
        None => {
            return Err(ParseError("cluster size overflow"));
        },
    };
    if cluster_size > 2 * 1024 * 1024 || !is_power_of_two(cluster_size) {
        return Err(ParseError("implausible cluster size"));
    }
    let total_sectors = u64_at(sector, 0x28);
    let mft_lcn = u64_at(sector, 0x30);
    let total_clusters = total_sectors / sectors_per_cluster as u64;
    if mft_lcn == 0 || mft_lcn >= total_clusters {
        return Err(ParseError("$MFT cluster out of range"));
    }
    let rc_byte = sector[0x40];
    let record_size: u32 = if 0 < rc_byte && rc_byte < 128 {
        match (rc_byte as u32).checked_mul(cluster_size) {
            Some(v) => v,
            None => {
                return Err(ParseError("record size overflow"));
            },
        }
    } else if rc_byte >= 225 {
        pow2_u32((256 - rc_byte as u32) as u32)
    } else {
        return Err(ParseError("implausible record size encoding"));
    };
    if !(512 <= record_size && record_size <= 65536) || !is_power_of_two(record_size) {
        return Err(ParseError("implausible FILE record size"));
    }
    Ok(Geometry { bytes_per_sector, cluster_size, record_size, mft_lcn, total_clusters })
}


/// Whole FILE records fit a cluster (`u64::is_multiple_of`).
pub open spec fn records_fit_cluster(g: Geometry) -> bool {
    if g.record_size == 0 {
        g.cluster_size == 0
    } else {
        g.cluster_size % g.record_size == 0
    }
}

/// The geometry of the volume whose first sector is `sector`: parsed, then
/// checked to fit the device's `device_bytes` and to hold whole FILE
/// records in a cluster.
pub fn usable_geometry(sector: &[u8], device_bytes: u64) -> (r: Result<Geometry, ParseError>)
    ensures
        r == match boot_geometry(sector@) {
            Err(e) => Err(e),
            Ok(g) => if g.total_clusters * g.cluster_size > device_bytes {
                Err(ParseError("boot sector claims more space than the device"))
            } else if !records_fit_cluster(g) {
                Err(ParseError("unsupported geometry: cluster smaller than FILE record"))
            } else {
                Ok(g)
            },
        },
{
    let g = match parse_boot_sector(sector) {
        Ok(g) => g,
        Err(e) => return Err(e),
    };
    match geometry_fits_device(&g, device_bytes) {
        Ok(()) => {},
        Err(e) => return Err(e),
    }
    let fits = if g.record_size == 0 {
        g.cluster_size == 0
    } else {
        g.cluster_size % g.record_size == 0
    };
    if !fits {
        return Err(ParseError("unsupported geometry: cluster smaller than FILE record"));
    }
    Ok(g)
}

/// One read of the $MFT: `bytes` of whole records starting at record
/// `first_record`, found at `disk_offset` on the volume.
#[derive(Clone, Copy, Debug, PartialEq, Eq, Structural)]
pub struct Chunk {
    pub first_record: usize,
    pub disk_offset: u64,
    pub bytes: usize,
}

/// Bytes the extents `es` hold, with `cs`-byte clusters.
pub open spec fn extent_bytes(es: Seq<Extent>, cs: int) -> int
    decreases es.len(),
{
    if es.len() == 0 {
        0
    } else {
        es[0].clusters * cs + extent_bytes(es.drop_first(), cs)
    }
}

/// Where byte `pos` of the $MFT lies on the volume, reading the extents in
/// order, and how many bytes of its extent follow it there.
pub open spec fn mft_disk_offset(es: Seq<Extent>, cs: int, pos: int) -> Option<(int, int)>
    decreases es.len(),
{
    if es.len() == 0 {
        None
    } else {
        let len = es[0].clusters * cs;
        if 0 <= pos < len {
            Some((es[0].lcn * cs + pos, len - pos))
        } else {
            mft_disk_offset(es.drop_first(), cs, pos - len)
        }
    }
}

/// Bytes of the first `i` extents.
pub open spec fn extent_prefix(es: Seq<Extent>, cs: int, i: int) -> int
    decreases i,
{
    if i <= 0 {
        0
    } else {
        extent_prefix(es, cs, i - 1) + es[i - 1].clusters * cs
    }
}

proof fn lemma_prefix_nonneg(es: Seq<Extent>, cs: int, i: int)
    requires
        cs >= 0,
        i <= es.len(),
    ensures
        extent_prefix(es, cs, i) >= 0,
    decreases i,
{
    if i > 0 {
        lemma_prefix_nonneg(es, cs, i - 1);
        assert(es[i - 1].clusters * cs >= 0) by (nonlinear_arith)
            requires
                cs >= 0,
        ;
    }
}

proof fn lemma_disk_offset_at(es: Seq<Extent>, cs: int, i: int, off: int)
    requires
        cs >= 0,
        0 <= i < es.len(),
        0 <= off < es[i].clusters * cs,
    ensures
        mft_disk_offset(es, cs, extent_prefix(es, cs, i) + off) == Some((es[i].lcn * cs + off, es[i].clusters * cs - off)),
    decreases i,
{
    if i > 0 {
        let rest = es.drop_first();
        assert(rest[i - 1] == es[i]);
        lemma_disk_offset_at(rest, cs, i - 1, off);
        lemma_prefix_shift(es, cs, i);
        lemma_prefix_nonneg(rest, cs, i - 1);
        let len0 = es[0].clusters * cs;
        let pos = extent_prefix(es, cs, i) + off;
        assert(pos == len0 + extent_prefix(rest, cs, i - 1) + off);
        assert(pos >= len0);
        assert(mft_disk_offset(es, cs, pos) == mft_disk_offset(rest, cs, pos - len0));
    }
}

proof fn lemma_prefix_shift(es: Seq<Extent>, cs: int, i: int)
    requires
        0 < i <= es.len(),
    ensures
        extent_prefix(es, cs, i) == es[0].clusters * cs + extent_prefix(es.drop_first(), cs, i - 1),
    decreases i,
{
    let rest = es.drop_first();
    if i > 1 {
        lemma_prefix_shift(es, cs, i - 1);
        assert(rest[i - 2] == es[i - 1]);
        assert(extent_prefix(rest, cs, i - 1) == extent_prefix(rest, cs, i - 2) + rest[i - 2].clusters * cs);
        assert(extent_prefix(es, cs, i) == extent_prefix(es, cs, i - 1) + es[i - 1].clusters * cs);
    } else {
        assert(extent_prefix(es, cs, 1) == extent_prefix(es, cs, 0) + es[0].clusters * cs);
        assert(extent_prefix(rest, cs, 0) == 0);
    }
}

proof fn lemma_prefix_total(es: Seq<Extent>, cs: int, i: int)
    requires
        0 <= i <= es.len(),
    ensures
        extent_prefix(es, cs, es.len() as int) == extent_prefix(es, cs, i) + extent_bytes(es.subrange(i, es.len() as int), cs),
    decreases es.len() - i,
{
    if i < es.len() {
        lemma_prefix_total(es, cs, i + 1);
        let tail = es.subrange(i, es.len() as int);
        assert(tail.drop_first() =~= es.subrange(i + 1, es.len() as int));
        assert(tail[0] == es[i]);
    } else {
        assert(es.subrange(i, es.len() as int) =~= Seq::<Extent>::empty());
    }
}

/// Cuts the read of the first `total_records` FILE records into chunks:
/// extent by extent, at most `buf_bytes` each, never across an extent's
/// end, stopping when the records or the extents run out.
pub fn read_chunks(extents: &[Extent], cluster_size: u32, record_size: u32, total_records: u32, buf_bytes: usize) -> (r: Vec<Chunk>)
    requires
        record_size > 0,
        cluster_size % record_size == 0,
        buf_bytes >= record_size,
        buf_bytes % record_size as usize == 0,
        forall|i: int| 0 <= i < extents@.len() ==> ((#[trigger] extents@[i]).lcn + extents@[i].clusters) * cluster_size <= u64::MAX,
    ensures
        forall|k: int| 0 <= k < r@.len() ==> {
            let c = #[trigger] r@[k];
            &&& 0 < c.bytes <= buf_bytes
            &&& c.bytes % record_size as usize == 0
            &&& mft_disk_offset(extents@, cluster_size as int, c.first_record * record_size) matches Some((d, left))
                && d == c.disk_offset && c.bytes <= left
        },
        r@.len() > 0 ==> r@[0].first_record == 0,
        forall|k: int| 0 <= k < r@.len() - 1 ==> (#[trigger] r@[k + 1]).first_record * record_size == r@[k].first_record * record_size
            + r@[k].bytes,
        ({
            let want = min_int(total_records * record_size, extent_bytes(extents@, cluster_size as int));
            &&& r@.len() == 0 ==> want == 0
            &&& r@.len() > 0 ==> r@.last().first_record * record_size + r@.last().bytes == want
        }),
{
    let cs = cluster_size as u64;
    let rs = record_size as u64;
    let total = total_records as u64;
    let mut out: Vec<Chunk> = Vec::new();
    let mut record: u64 = 0;
    let mut i: usize = 0;
    let ghost es = extents@;
    let ghost csi = cluster_size as int;
    let ghost tr = total_records * record_size;
    proof {
        lemma_prefix_total(es, csi, 0);
        assert(es.subrange(0, es.len() as int) =~= es);
        assert(extent_prefix(es, csi, 0) == 0);
        assert(total * rs <= 0xFFFF_FFFF * 0xFFFF_FFFF) by (nonlinear_arith)
            requires
                total <= 0xFFFF_FFFF,
                rs <= 0xFFFF_FFFF,
        ;
    }
    while i < extents.len() && record < total
        invariant
            es == extents@,
            csi == cs,
            rs == record_size,
            rs > 0,
            cs % rs == 0,
            buf_bytes >= rs,
            buf_bytes % rs as usize == 0,
            total == total_records,
            tr == total * rs,
            tr <= 0xFFFF_FFFF * 0xFFFF_FFFF,
            i <= es.len(),
            forall|j: int| 0 <= j < es.len() ==> ((#[trigger] es[j]).lcn + es[j].clusters) * cs <= u64::MAX,
            record <= total,
            record * rs == min_int(tr, extent_prefix(es, csi, i as int)),
            extent_prefix(es, csi, es.len() as int) == extent_bytes(es, csi),
            out@.len() == 0 ==> record == 0,
            out@.len() > 0 ==> out@.last().first_record * rs + out@.last().bytes == record * rs,
            forall|k: int| 0 <= k < out@.len() ==> {
                let c = #[trigger] out@[k];
                &&& 0 < c.bytes <= buf_bytes
                &&& c.bytes % rs as usize == 0
                &&& mft_disk_offset(es, csi, c.first_record * rs) matches Some((d, left)) && d == c.disk_offset && c.bytes <= left
            },
            out@.len() > 0 ==> out@[0].first_record == 0,
            forall|k: int| 0 <= k < out@.len() - 1 ==> (#[trigger] out@[k + 1]).first_record * rs == out@[k].first_record * rs + out@[k].bytes,
        decreases es.len() - i,
    {
        let e = extents[i];
        proof {
            assert((e.lcn + e.clusters) * cs <= u64::MAX);
            assert(e.clusters * cs <= (e.lcn + e.clusters) * cs) by (nonlinear_arith);
        }
        let ext_bytes = e.clusters * cs;
        proof {
            let q = cs / rs;
            vstd::arithmetic::div_mod::lemma_fundamental_div_mod(cs as int, rs as int);
            assert(ext_bytes == (e.clusters * q) * rs) by (nonlinear_arith)
                requires
                    ext_bytes == e.clusters * cs,
                    cs == rs * q + 0,
            ;
            vstd::arithmetic::div_mod::lemma_mod_multiples_basic((e.clusters * q) as int, rs as int);
            assert(ext_bytes % rs == 0);
            assert(extent_prefix(es, csi, i + 1) == extent_prefix(es, csi, i as int) + ext_bytes);
            assert(record < total ==> record * rs == extent_prefix(es, csi, i as int)) by (nonlinear_arith)
                requires
                    record * rs == min_int(tr, extent_prefix(es, csi, i as int)),
                    tr == total * rs,
                    rs > 0,
            ;
        }
        let mut off: u64 = 0;
        while off < ext_bytes && record < total
            invariant
                es == extents@,
                csi == cs,
                rs == record_size,
                rs > 0,
                buf_bytes >= rs,
                buf_bytes % rs as usize == 0,
                total == total_records,
                tr == total * rs,
                tr <= 0xFFFF_FFFF * 0xFFFF_FFFF,
                i < es.len(),
                e == es[i as int],
                ext_bytes == e.clusters * cs,
                ext_bytes % rs == 0,
                (e.lcn + e.clusters) * cs <= u64::MAX,
                off <= ext_bytes,
                off % rs == 0,
                record <= total,
                record * rs == min_int(tr, extent_prefix(es, csi, i as int) + off),
                record < total ==> record * rs == extent_prefix(es, csi, i as int) + off,
                out@.len() == 0 ==> record == 0,
                out@.len() > 0 ==> out@.last().first_record * rs + out@.last().bytes == record * rs,
                forall|k: int| 0 <= k < out@.len() ==> {
                    let c = #[trigger] out@[k];
                    &&& 0 < c.bytes <= buf_bytes
                    &&& c.bytes % rs as usize == 0
                    &&& mft_disk_offset(es, csi, c.first_record * rs) matches Some((d, left)) && d == c.disk_offset && c.bytes <= left
                },
                out@.len() > 0 ==> out@[0].first_record == 0,
                forall|k: int| 0 <= k < out@.len() - 1 ==> (#[trigger] out@[k + 1]).first_record * rs == out@[k].first_record * rs + out@[k].bytes,
            decreases ext_bytes - off,
        {
            let avail = ext_bytes - off;
            proof {
                assert((total - record) * rs <= total * rs) by (nonlinear_arith)
                    requires
                        record <= total,
                        rs > 0,
                ;
            }
            let want = (total - record) * rs;
            let mut take = avail;
            if (buf_bytes as u64) < take {
                take = buf_bytes as u64;
            }
            if want < take {
                take = want;
            }
            proof {
                lemma_disk_offset_at(es, csi, i as int, off as int);
                vstd::arithmetic::div_mod::lemma_sub_mod_noop(ext_bytes as int, off as int, rs as int);
                assert(avail % rs == 0);
                vstd::arithmetic::div_mod::lemma_mod_multiples_basic((total - record) as int, rs as int);
                assert(want % rs == 0);
                assert(take % rs == 0);
                assert(want > 0) by (nonlinear_arith)
                    requires
                        want == (total - record) * rs,
                        total > record,
                        rs > 0,
                ;
                assert(take > 0);
                assert(e.lcn * cs + off + take <= u64::MAX) by (nonlinear_arith)
                    requires
                        (e.lcn + e.clusters) * cs <= u64::MAX,
                        off + take <= e.clusters * cs,
                ;
                assert(want == tr - record * rs) by (nonlinear_arith)
                    requires
                        want == (total - record) * rs,
                        tr == total * rs,
                ;
            }
            let c = Chunk { first_record: record as usize, disk_offset: e.lcn * cs + off, bytes: take as usize };
            out.push(c);
            let ghost old_off = off;
            let ghost old_record = record;
            off = off + take;
            record = record + take / rs;
            proof {
                vstd::arithmetic::div_mod::lemma_fundamental_div_mod(take as int, rs as int);
                assert(record * rs == old_record * rs + take) by (nonlinear_arith)
                    requires
                        record == old_record + take / rs,
                        take == rs * (take / rs) + take % rs,
                        take % rs == 0,
                ;
                assert(record <= total) by (nonlinear_arith)
                    requires
                        record * rs == old_record * rs + take,
                        take <= (total - old_record) * rs,
                        rs > 0,
                ;
                vstd::arithmetic::div_mod::lemma_add_mod_noop(old_off as int, take as int, rs as int);
                assert(off % rs == 0);
                assert(record < total ==> record * rs < tr) by (nonlinear_arith)
                    requires
                        tr == total * rs,
                        rs > 0,
                ;
            }
        }
        proof {
            assert(record * rs == min_int(tr, extent_prefix(es, csi, i + 1)));
        }
        i = i + 1;
    }
    proof {
        if record < total {
            assert(i == es.len());
        } else {
            lemma_prefix_le(es, csi, i as int);
        }
    }
    out
}

pub open spec fn min_int(a: int, b: int) -> int {
    if a < b { a } else { b }
}

proof fn lemma_prefix_le(es: Seq<Extent>, cs: int, i: int)
    requires
        0 <= i <= es.len(),
        cs >= 0,
    ensures
        extent_prefix(es, cs, i) <= extent_prefix(es, cs, es.len() as int),
    decreases es.len() - i,
{
    if i < es.len() {
        lemma_prefix_le(es, cs, i + 1);
        assert(es[i].clusters * cs >= 0) by (nonlinear_arith)
            requires
                cs >= 0,
        ;
    }
}
/// What a scan needs to read the $MFT: the volume's geometry, where the
/// $MFT lies, and how much of it holds FILE records.
pub struct MftMap {
    pub geometry: Geometry,
    pub extents: Vec<Extent>,
    pub mft_bytes: u64,
    pub total_records: u32,
}

/// The map of an $MFT of `data_size` bytes (`u64::MAX`: unknown) laid out
/// as `extents`: the read plan's sizes beside the geometry and extents, or
/// the plan's refusal.
pub fn mft_map(geometry: Geometry, extents: Vec<Extent>, data_size: u64, device_bytes: u64) -> (r: Result<MftMap, ParseError>)
    requires
        geometry.record_size > 0,
    ensures
        match mft_plan(geometry, extents@, data_size, device_bytes) {
            Ok(p) => r matches Ok(m) && m.geometry == geometry && m.extents@ == extents@ && m.mft_bytes == p.mft_bytes
                && m.total_records == p.total_records,
            Err(e) => r == Err::<MftMap, ParseError>(e),
        },
{
    match plan_mft_read(&geometry, extents.as_slice(), data_size, device_bytes) {
        Ok(plan) => Ok(MftMap { geometry, extents, mft_bytes: plan.mft_bytes, total_records: plan.total_records }),
        Err(e) => Err(e),
    }
}

} // verus!
