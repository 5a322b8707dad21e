//! PMTiles v3 archives: Hilbert tile ids, the directory, the header and the
//! assembly of the whole file.

use vstd::prelude::*;
use vstd::string::StringSliceAdditionalSpecFns;
use crate::gzip::{compressible, gzip, gzip_bytes};
use crate::hilbert::{
    cells, descend, hilbert_index, in_grid, lemma_hilbert_index_range, lemma_level,
    lemma_level_zero, side,
};
use crate::metadata::{
    lemma_same_metadata, metadata_json, metadata_json_text, metadata_quotable, same_metadata,
    TileMetadata,
};
use crate::wire::{i32_le, le_bytes, put_bytes, twos_complement32, u64_le, varint_bytes, zigzag};
use crate::{TileCoord, TileError, MAX_ZOOM};

verus! {

/// Turns a quadrant of side `n` into standard position: in the lower row the
/// two coordinates change places, after both are mirrored if the quadrant is
/// the right one.
pub fn rot(n: u64, x: &mut u32, y: &mut u32, rx: bool, ry: bool)
    requires
        *old(x) < n,
        *old(y) < n,
        n <= 0x1_0000_0000,
    ensures
        ry ==> *final(x) == *old(x) && *final(y) == *old(y),
        !ry && rx ==> *final(x) == n - 1 - *old(y) && *final(y) == n - 1 - *old(x),
        !ry && !rx ==> *final(x) == *old(y) && *final(y) == *old(x),
{
    if !ry {
        if rx {
            *x = (n - 1) as u32 - *x;
            *y = (n - 1) as u32 - *y;
        }
        let temp = *x;
        *x = *y;
        *y = temp;
    }
}

/// The coordinate `v` held to the grid of level `z`.
pub open spec fn clamp_to_grid(v: u32, z: u8) -> int {
    if v < side(z as nat) {
        v as int
    } else {
        side(z as nat) - 1
    }
}

/// Position of the tile `(x, y)` along the Hilbert curve of zoom `z`, the
/// coordinates first held to the grid.
pub fn xy_to_hilbert(x: u32, y: u32, z: u8) -> (d: u64)
    requires
        z <= MAX_ZOOM,
    ensures
        d == hilbert_index(z as nat, clamp_to_grid(x, z), clamp_to_grid(y, z)),
        d < cells(z as nat),
{
    let n: u64 = 1u64 << (z as u64);
    proof {
        vstd::arithmetic::power2::lemma2_to64();
        vstd::arithmetic::power2::lemma_pow2_strictly_increases(z as nat, 31);
        vstd::bits::lemma_u64_shl_is_mul(1, z as u64);
        assert(n == side(z as nat));
        lemma_hilbert_index_range(z as nat, clamp_to_grid(x, z), clamp_to_grid(y, z));
        assert(n * n <= 0x4000_0000_0000_0000) by (nonlinear_arith)
            requires
                n < 0x8000_0000,
        ;
    }
    let max_coord: u32 = (n - 1) as u32;
    let mut x: u32 = if x < max_coord {
        x
    } else {
        max_coord
    };
    let mut y: u32 = if y < max_coord {
        y
    } else {
        max_coord
    };
    let ghost target = hilbert_index(z as nat, x as int, y as int);
    let mut d: u64 = 0;
    let mut s: u64 = n >> 1;
    let mut k: u8 = z;
    proof {
        if z > 0 {
            lemma_level(z as nat);
            assert(n >> 1 == n / 2) by (bit_vector);
        } else {
            assert(1u64 >> 1 == 0u64) by (bit_vector);
        }
    }
    while s > 0
        invariant
            k <= z <= MAX_ZOOM,
            in_grid(k as nat, x as int, y as int),
            k > 0 ==> s == side((k - 1) as nat),
            k == 0 ==> s == 0,
            d + hilbert_index(k as nat, x as int, y as int) == target,
            target < cells(z as nat),
            cells(z as nat) <= 0x4000_0000_0000_0000,
        decreases k,
    {
        proof {
            lemma_level(k as nat);
            let step = descend(s as int, x as int, y as int);
            lemma_hilbert_index_range((k - 1) as nat, step.1, step.2);
            if k > 1 {
                lemma_level((k - 1) as nat);
            }
            assert(s >> 1 == s / 2) by (bit_vector);
            vstd::arithmetic::power2::lemma_pow2_strictly_increases((k - 1) as nat, 31);
            vstd::arithmetic::power2::lemma2_to64();
        }
        let rx: bool = x as u64 >= s;
        let ry: bool = y as u64 >= s;
        let q: u64 = if ry {
            if rx {
                2
            } else {
                1
            }
        } else if rx {
            3
        } else {
            0
        };
        assert(s * s == cells((k - 1) as nat));
        assert(q * (s * s) + hilbert_index(
            (k - 1) as nat,
            descend(s as int, x as int, y as int).1,
            descend(s as int, x as int, y as int).2,
        ) == hilbert_index(k as nat, x as int, y as int));
        assert(s * s <= 0x4000_0000_0000_0000) by (nonlinear_arith)
            requires
                s < 0x8000_0000,
        ;
        d = d + s * s * q;
        if rx {
            x = x - s as u32;
        }
        if ry {
            y = y - s as u32;
        }
        rot(s, &mut x, &mut y, rx, ry);
        s = s >> 1;
        k = k - 1;
    }
    proof {
        lemma_level_zero();
    }
    d
}

/// The id of a tile: the zoom in the top byte, the Hilbert index below it.
pub open spec fn tile_id(z: u8, x: u32, y: u32) -> u64 {
    ((z as u64) << 56) | (hilbert_index(z as nat, clamp_to_grid(x, z), clamp_to_grid(y, z)) as u64)
}

/// Computes the id of the tile `(z, x, y)`.
pub fn coord_to_tile_id(z: u8, x: u32, y: u32) -> (id: u64)
    requires
        z <= MAX_ZOOM,
    ensures
        id == tile_id(z, x, y),
{
    let hilbert: u64 = xy_to_hilbert(x, y, z);
    ((z as u64) << 56) | hilbert
}

/// Appends `value` as an unsigned LEB128 varint.
pub fn write_varint(buffer: &mut Vec<u8>, value: u64)
    ensures
        final(buffer)@ == old(buffer)@ + varint_bytes(value as nat),
{
    let mut left: u64 = value;
    let ghost mut done: Seq<u8> = Seq::empty();
    assert(done + varint_bytes(left as nat) =~= varint_bytes(value as nat));
    assert(buffer@ =~= old(buffer)@ + done);
    loop
        invariant
            buffer@ == old(buffer)@ + done,
            done + varint_bytes(left as nat) == varint_bytes(value as nat),
        decreases left,
    {
        let low: u8 = (left % 128) as u8;
        let rest: u64 = left / 128;
        if rest == 0 {
            buffer.push(low);
            proof {
                assert(varint_bytes(left as nat) == seq![low]);
                assert(buffer@ =~= old(buffer)@ + (done + seq![low]));
            }
            return ;
        }
        buffer.push(low + 128);
        proof {
            let byte = (low + 128) as u8;
            assert(varint_bytes(left as nat) == seq![byte] + varint_bytes(rest as nat));
            assert(done.push(byte) + varint_bytes(rest as nat) =~= done + (seq![byte]
                + varint_bytes(rest as nat)));
            done = done.push(byte);
            assert(buffer@ =~= old(buffer)@ + done);
        }
        left = rest;
    }
}

/// Zig-zag code of a signed 64-bit number.
pub fn zigzag_encode(value: i64) -> (r: u64)
    ensures
        r == zigzag(value as int),
{
    if value >= 0 {
        2 * (value as u64)
    } else {
        let m: u64 = (-(value + 1)) as u64;
        2 * m + 1
    }
}

/// One tile of an archive: its id, where its compressed bytes start in the
/// tile data region, how many they are, and the bytes.
#[derive(Debug, Clone)]
pub struct TileEntry {
    pub tile_id: u64,
    pub offset: u64,
    pub length: u32,
    pub data: Vec<u8>,
}

/// What a `TileEntry` holds, as mathematical values.
pub struct TileEntryView {
    pub tile_id: u64,
    pub offset: u64,
    pub length: u32,
    pub data: Seq<u8>,
}

impl View for TileEntry {
    type V = TileEntryView;

    open spec fn view(&self) -> TileEntryView {
        TileEntryView {
            tile_id: self.tile_id,
            offset: self.offset,
            length: self.length,
            data: self.data@,
        }
    }
}

/// The views of a list of entries.
pub open spec fn entries_view(entries: Seq<TileEntry>) -> Seq<TileEntryView> {
    entries.map_values(|e: TileEntry| e@)
}

/// The sum of the lengths of the first `n` entries.
pub open spec fn lengths_before(entries: Seq<TileEntryView>, n: int) -> int
    decreases n,
{
    if n <= 0 {
        0
    } else {
        lengths_before(entries, n - 1) + entries[n - 1].length
    }
}

/// Whether each entry's length is that of its data and each entry starts
/// where the one before it ends, the first at zero.
pub open spec fn entries_packed(entries: Seq<TileEntryView>) -> bool {
    forall|i: int|
        0 <= i < entries.len() ==> (#[trigger] entries[i]).length == entries[i].data.len()
            && entries[i].offset == lengths_before(entries, i)
}

/// Whether the tile ids never fall along the list.
pub open spec fn ids_ascending(entries: Seq<TileEntryView>) -> bool {
    forall|i: int, j: int|
        0 <= i <= j < entries.len() ==> (#[trigger] entries[i]).tile_id <= (
        #[trigger] entries[j]).tile_id
}

/// Whether the tile ids rise from each entry to the next.
pub open spec fn ids_strictly_ascending(entries: Seq<TileEntryView>) -> bool {
    forall|i: int, j: int|
        0 <= i < j < entries.len() ==> (#[trigger] entries[i]).tile_id < (
        #[trigger] entries[j]).tile_id
}

/// Whether no two entries have one tile id.
pub open spec fn ids_distinct(entries: Seq<TileEntryView>) -> bool {
    forall|i: int, j: int|
        0 <= i < j < entries.len() ==> (#[trigger] entries[i]).tile_id != (
        #[trigger] entries[j]).tile_id
}

/// Each entry of a packed list starts at the sum of the lengths before it.
pub proof fn lemma_offsets_are_sums(entries: Seq<TileEntryView>, i: int)
    requires
        entries_packed(entries),
        0 <= i < entries.len(),
    ensures
        entries[i].offset == lengths_before(entries, i),
        i == 0 ==> entries[i].offset == 0,
        i > 0 ==> entries[i].offset == entries[i - 1].offset + entries[i - 1].length,
{
    if i > 0 {
        assert(entries[i - 1].offset == lengths_before(entries, i - 1));
    }
}

/// The lengths of the entries before `n` do not depend on later entries.
proof fn lemma_lengths_before_prefix(a: Seq<TileEntryView>, b: Seq<TileEntryView>, n: int)
    requires
        n <= a.len() <= b.len(),
        forall|i: int| 0 <= i < a.len() ==> a[i] == b[i],
    ensures
        lengths_before(a, n) == lengths_before(b, n),
    decreases n,
{
    if n > 0 {
        lemma_lengths_before_prefix(a, b, n - 1);
    }
}

/// Adds a tile at the end of a packed list, its data starting where the list
/// ends. Gives `false`, and leaves the list as it is, when the data is longer
/// than 32 bits can say or its start lies beyond 64 bits.
pub fn push_entry(entries: &mut Vec<TileEntry>, tile_id: u64, data: Vec<u8>) -> (ok: bool)
    requires
        entries_packed(entries_view(old(entries)@)),
    ensures
        ok <==> data@.len() <= u32::MAX && lengths_before(
            entries_view(old(entries)@),
            old(entries)@.len() as int,
        ) <= u64::MAX,
        ok ==> entries_view(final(entries)@) == entries_view(old(entries)@).push(
            TileEntryView {
                tile_id,
                offset: lengths_before(entries_view(old(entries)@), old(entries)@.len() as int) as u64,
                length: data@.len() as u32,
                data: data@,
            },
        ),
        ok ==> entries_packed(entries_view(final(entries)@)),
        !ok ==> final(entries)@ == old(entries)@,
{
    let ghost before = entries_view(entries@);
    let n = entries.len();
    if data.len() > u32::MAX as usize {
        return false;
    }
    let offset: u64 = if n == 0 {
        0
    } else {
        let last = &entries[n - 1];
        assert(before[n - 1] == last@);
        match last.offset.checked_add(last.length as u64) {
            Some(end) => end,
            None => {
                return false;
            },
        }
    };
    let length: u32 = data.len() as u32;
    entries.push(TileEntry { tile_id, offset, length, data });
    proof {
        let after = entries_view(entries@);
        assert(after =~= before.push(
            TileEntryView { tile_id, offset, length, data: data@ },
        ));
        assert forall|i: int| 0 <= i < after.len() implies (#[trigger] after[i]).length
            == after[i].data.len() && after[i].offset == lengths_before(after, i) by {
            lemma_lengths_before_prefix(before, after, if i < n { i } else { n as int });
            if i < n {
                assert(after[i] == before[i]);
            }
        }
    }
    true
}

/// The id differences of the first `n` entries as varints, the first id
/// taken from zero.
pub open spec fn id_deltas(entries: Seq<TileEntryView>, n: int) -> Seq<u8>
    decreases n,
{
    if n <= 0 {
        Seq::<u8>::empty()
    } else {
        id_deltas(entries, n - 1) + varint_bytes(
            (entries[n - 1].tile_id - (if n >= 2 {
                entries[n - 2].tile_id
            } else {
                0
            })) as nat,
        )
    }
}

/// A run length of one for each of `n` entries.
pub open spec fn run_lengths(n: int) -> Seq<u8>
    decreases n,
{
    if n <= 0 {
        Seq::<u8>::empty()
    } else {
        run_lengths(n - 1) + varint_bytes(1)
    }
}

/// The length differences of the first `n` entries as zig-zag varints, the
/// first length taken from zero.
pub open spec fn length_deltas(entries: Seq<TileEntryView>, n: int) -> Seq<u8>
    decreases n,
{
    if n <= 0 {
        Seq::<u8>::empty()
    } else {
        length_deltas(entries, n - 1) + varint_bytes(
            zigzag(
                entries[n - 1].length - (if n >= 2 {
                    entries[n - 2].length as int
                } else {
                    0
                }),
            ) as nat,
        )
    }
}

/// The offset differences of the first `n` entries as zig-zag varints, the
/// first offset taken from zero.
pub open spec fn offset_deltas(entries: Seq<TileEntryView>, n: int) -> Seq<u8>
    decreases n,
{
    if n <= 0 {
        Seq::<u8>::empty()
    } else {
        offset_deltas(entries, n - 1) + varint_bytes(
            zigzag(
                entries[n - 1].offset - (if n >= 2 {
                    entries[n - 2].offset as int
                } else {
                    0
                }),
            ) as nat,
        )
    }
}

/// The directory before compression: the entry count, then the ids, the run
/// lengths, the lengths and the offsets, each list on its own.
pub open spec fn directory_bytes(entries: Seq<TileEntryView>) -> Seq<u8> {
    varint_bytes(entries.len()) + id_deltas(entries, entries.len() as int) + run_lengths(
        entries.len() as int,
    ) + length_deltas(entries, entries.len() as int) + offset_deltas(
        entries,
        entries.len() as int,
    )
}

/// Writes the directory of a packed list with ascending ids, uncompressed.
pub fn write_directory(entries: &[TileEntry]) -> (out: Vec<u8>)
    requires
        entries_packed(entries_view(entries@)),
        ids_ascending(entries_view(entries@)),
    ensures
        out@ == directory_bytes(entries_view(entries@)),
{
    let ghost ev = entries_view(entries@);
    let n = entries.len();
    let mut out: Vec<u8> = Vec::new();
    write_varint(&mut out, n as u64);
    let ghost head = out@;
    let mut last_tile_id: u64 = 0;
    let mut i: usize = 0;
    while i < n
        invariant
            i <= n == entries.len(),
            ev == entries_view(entries@),
            ids_ascending(ev),
            out@ == head + id_deltas(ev, i as int),
            last_tile_id == (if i >= 1 {
                ev[i - 1].tile_id
            } else {
                0
            }),
        decreases n - i,
    {
        assert(ev[i as int] == entries@[i as int]@);
        if i >= 1 {
            assert(ev[i - 1].tile_id <= ev[i as int].tile_id);
        }
        write_varint(&mut out, entries[i].tile_id - last_tile_id);
        last_tile_id = entries[i].tile_id;
        assert(out@ =~= head + id_deltas(ev, i + 1));
        i += 1;
    }
    let ghost head = out@;
    let mut i: usize = 0;
    while i < n
        invariant
            i <= n,
            out@ == head + run_lengths(i as int),
        decreases n - i,
    {
        write_varint(&mut out, 1);
        assert(out@ =~= head + run_lengths(i + 1));
        i += 1;
    }
    let ghost head = out@;
    let mut last_length: u32 = 0;
    let mut i: usize = 0;
    while i < n
        invariant
            i <= n == entries.len(),
            ev == entries_view(entries@),
            out@ == head + length_deltas(ev, i as int),
            last_length == (if i >= 1 {
                ev[i - 1].length
            } else {
                0
            }),
        decreases n - i,
    {
        assert(ev[i as int] == entries@[i as int]@);
        let delta: i64 = (entries[i].length as i64) - (last_length as i64);
        write_varint(&mut out, zigzag_encode(delta));
        last_length = entries[i].length;
        assert(out@ =~= head + length_deltas(ev, i + 1));
        i += 1;
    }
    let ghost head = out@;
    let mut last_offset: u64 = 0;
    let mut i: usize = 0;
    while i < n
        invariant
            i <= n == entries.len(),
            ev == entries_view(entries@),
            entries_packed(ev),
            out@ == head + offset_deltas(ev, i as int),
            last_offset == (if i >= 1 {
                ev[i - 1].offset
            } else {
                0
            }),
        decreases n - i,
    {
        assert(ev[i as int] == entries@[i as int]@);
        proof {
            lemma_offsets_are_sums(ev, i as int);
        }
        let step: u64 = entries[i].offset - last_offset;
        write_varint(&mut out, zigzag_encode(step as i64));
        last_offset = entries[i].offset;
        assert(out@ =~= head + offset_deltas(ev, i + 1));
        i += 1;
    }
    assert(out@ =~= directory_bytes(ev));
    out
}

/// Writes the directory of a packed list with ascending ids and compresses
/// it. Succeeds exactly when the directory can be compressed, and fails with
/// `CompressionFailed` otherwise.
pub fn encode_directory(entries: &[TileEntry]) -> (r: Result<Vec<u8>, TileError>)
    requires
        entries_packed(entries_view(entries@)),
        ids_ascending(entries_view(entries@)),
    ensures
        r is Ok <==> compressible(directory_bytes(entries_view(entries@))),
        match r {
            Ok(out) => out@ == gzip_bytes(directory_bytes(entries_view(entries@))),
            Err(e) => e == TileError::CompressionFailed,
        },
{
    let plain = write_directory(entries);
    match gzip(plain.as_slice()) {
        Some(out) => Ok(out),
        None => Err(TileError::CompressionFailed),
    }
}

/// Length of the header of an archive.
pub const HEADER_SIZE: usize = 127;

/// The eight bytes that open an archive: `PMTiles` in ASCII, then version 3.
pub open spec fn magic_bytes() -> Seq<u8> {
    seq![0x50u8, 0x4d, 0x54, 0x69, 0x6c, 0x65, 0x73, 0x03]
}

/// Where the parts of an archive lie, and how many tiles it holds.
pub struct Layout {
    pub tile_count: u64,
    pub root_directory_offset: u64,
    pub root_directory_length: u64,
    pub json_metadata_offset: u64,
    pub json_metadata_length: u64,
    pub tile_data_offset: u64,
    pub tile_data_length: u64,
}

/// The zoom in the middle of the range, rounded down.
pub open spec fn center_zoom(m: &TileMetadata) -> u8 {
    ((m.min_zoom + m.max_zoom) / 2) as u8
}

/// The first 96 bytes of the header, all numbers little-endian in eight
/// bytes: magic and version; offset and length of the root directory, of the
/// JSON metadata, of the leaf directories (none) and of the tile data; the
/// tile count three times, as addressed tiles, tile entries and tile contents.
pub open spec fn locations_bytes(l: Layout) -> Seq<u8> {
    magic_bytes() + le_bytes(l.root_directory_offset as nat, 8) + le_bytes(
        l.root_directory_length as nat,
        8,
    ) + le_bytes(l.json_metadata_offset as nat, 8) + le_bytes(l.json_metadata_length as nat, 8)
        + le_bytes(0, 8) + le_bytes(0, 8) + le_bytes(l.tile_data_offset as nat, 8) + le_bytes(
        l.tile_data_length as nat,
        8,
    ) + le_bytes(l.tile_count as nat, 8) + le_bytes(l.tile_count as nat, 8) + le_bytes(
        l.tile_count as nat,
        8,
    )
}

/// The last 31 bytes of the header: the flags clustered (1), internal
/// compression gzip (2), tile compression gzip (2), tile type MVT (1); the
/// zoom range; the bounds, little-endian in four bytes each; the centre zoom
/// and the centre.
pub open spec fn description_bytes(m: &TileMetadata) -> Seq<u8> {
    seq![1u8, 2u8, 2u8, 1u8, m.min_zoom, m.max_zoom] + le_bytes(
        twos_complement32(m.bounds.min_lon_e7),
        4,
    ) + le_bytes(twos_complement32(m.bounds.min_lat_e7), 4) + le_bytes(
        twos_complement32(m.bounds.max_lon_e7),
        4,
    ) + le_bytes(twos_complement32(m.bounds.max_lat_e7), 4) + seq![center_zoom(m)] + le_bytes(
        twos_complement32(m.center_lon_e7),
        4,
    ) + le_bytes(twos_complement32(m.center_lat_e7), 4)
}

/// The 127 bytes of the header.
pub open spec fn header_bytes(m: &TileMetadata, l: Layout) -> Seq<u8> {
    locations_bytes(l) + description_bytes(m)
}

/// `le_bytes` gives as many bytes as it is asked for.
pub proof fn lemma_le_bytes_len(v: nat, n: nat)
    ensures
        le_bytes(v, n).len() == n,
    decreases n,
{
    if n > 0 {
        lemma_le_bytes_len(v / 256, (n - 1) as nat);
    }
}

/// A header is 127 bytes long and opens with the magic bytes.
pub proof fn lemma_header_shape(m: &TileMetadata, l: Layout)
    ensures
        header_bytes(m, l).len() == HEADER_SIZE,
        header_bytes(m, l).take(8) == magic_bytes(),
{
    lemma_le_bytes_len(l.root_directory_offset as nat, 8);
    lemma_le_bytes_len(l.root_directory_length as nat, 8);
    lemma_le_bytes_len(l.json_metadata_offset as nat, 8);
    lemma_le_bytes_len(l.json_metadata_length as nat, 8);
    lemma_le_bytes_len(0, 8);
    lemma_le_bytes_len(l.tile_data_offset as nat, 8);
    lemma_le_bytes_len(l.tile_data_length as nat, 8);
    lemma_le_bytes_len(l.tile_count as nat, 8);
    lemma_le_bytes_len(twos_complement32(m.bounds.min_lon_e7), 4);
    lemma_le_bytes_len(twos_complement32(m.bounds.min_lat_e7), 4);
    lemma_le_bytes_len(twos_complement32(m.bounds.max_lon_e7), 4);
    lemma_le_bytes_len(twos_complement32(m.bounds.max_lat_e7), 4);
    lemma_le_bytes_len(twos_complement32(m.center_lon_e7), 4);
    lemma_le_bytes_len(twos_complement32(m.center_lat_e7), 4);
    assert(locations_bytes(l).len() == 96);
    assert(description_bytes(m).len() == 31);
    assert(locations_bytes(l).take(8) =~= magic_bytes());
    assert(header_bytes(m, l).take(8) =~= locations_bytes(l).take(8));
}

/// Appends the eight little-endian bytes of `v` to a buffer that holds
/// `base + acc`.
fn put_u64(buf: &mut Vec<u8>, v: u64, Ghost(base): Ghost<Seq<u8>>, Ghost(acc): Ghost<Seq<u8>>)
    requires
        old(buf)@ == base + acc,
    ensures
        final(buf)@ == base + (acc + le_bytes(v as nat, 8)),
{
    let bytes = u64_le(v);
    put_bytes(buf, bytes.as_slice());
    assert(buf@ =~= base + (acc + le_bytes(v as nat, 8)));
}

/// Appends the four little-endian bytes of `v` to a buffer that holds
/// `base + acc`.
fn put_i32(buf: &mut Vec<u8>, v: i32, Ghost(base): Ghost<Seq<u8>>, Ghost(acc): Ghost<Seq<u8>>)
    requires
        old(buf)@ == base + acc,
    ensures
        final(buf)@ == base + (acc + le_bytes(twos_complement32(v), 4)),
{
    let bytes = i32_le(v);
    put_bytes(buf, bytes.as_slice());
    assert(buf@ =~= base + (acc + le_bytes(twos_complement32(v), 4)));
}

/// Appends the first 96 bytes of the header.
fn write_locations(writer: &mut Vec<u8>, l: &Layout)
    ensures
        final(writer)@ == old(writer)@ + locations_bytes(*l),
{
    let ghost base = writer@;
    writer.push(0x50);
    writer.push(0x4d);
    writer.push(0x54);
    writer.push(0x69);
    writer.push(0x6c);
    writer.push(0x65);
    writer.push(0x73);
    writer.push(0x03);
    let ghost mut acc = magic_bytes();
    assert(writer@ =~= base + acc);
    put_u64(writer, l.root_directory_offset, Ghost(base), Ghost(acc));
    proof {
        acc = acc + le_bytes(l.root_directory_offset as nat, 8);
    }
    put_u64(writer, l.root_directory_length, Ghost(base), Ghost(acc));
    proof {
        acc = acc + le_bytes(l.root_directory_length as nat, 8);
    }
    put_u64(writer, l.json_metadata_offset, Ghost(base), Ghost(acc));
    proof {
        acc = acc + le_bytes(l.json_metadata_offset as nat, 8);
    }
    put_u64(writer, l.json_metadata_length, Ghost(base), Ghost(acc));
    proof {
        acc = acc + le_bytes(l.json_metadata_length as nat, 8);
    }
    put_u64(writer, 0, Ghost(base), Ghost(acc));
    proof {
        acc = acc + le_bytes(0, 8);
    }
    put_u64(writer, 0, Ghost(base), Ghost(acc));
    proof {
        acc = acc + le_bytes(0, 8);
    }
    put_u64(writer, l.tile_data_offset, Ghost(base), Ghost(acc));
    proof {
        acc = acc + le_bytes(l.tile_data_offset as nat, 8);
    }
    put_u64(writer, l.tile_data_length, Ghost(base), Ghost(acc));
    proof {
        acc = acc + le_bytes(l.tile_data_length as nat, 8);
    }
    put_u64(writer, l.tile_count, Ghost(base), Ghost(acc));
    proof {
        acc = acc + le_bytes(l.tile_count as nat, 8);
    }
    put_u64(writer, l.tile_count, Ghost(base), Ghost(acc));
    proof {
        acc = acc + le_bytes(l.tile_count as nat, 8);
    }
    put_u64(writer, l.tile_count, Ghost(base), Ghost(acc));
}

/// Appends the last 31 bytes of the header.
fn write_description(writer: &mut Vec<u8>, m: &TileMetadata)
    ensures
        final(writer)@ == old(writer)@ + description_bytes(m),
{
    let ghost base = writer@;
    writer.push(1);
    writer.push(2);
    writer.push(2);
    writer.push(1);
    writer.push(m.min_zoom);
    writer.push(m.max_zoom);
    let ghost mut acc = seq![1u8, 2u8, 2u8, 1u8, m.min_zoom, m.max_zoom];
    assert(writer@ =~= base + acc);
    put_i32(writer, m.bounds.min_lon_e7, Ghost(base), Ghost(acc));
    proof {
        acc = acc + le_bytes(twos_complement32(m.bounds.min_lon_e7), 4);
    }
    put_i32(writer, m.bounds.min_lat_e7, Ghost(base), Ghost(acc));
    proof {
        acc = acc + le_bytes(twos_complement32(m.bounds.min_lat_e7), 4);
    }
    put_i32(writer, m.bounds.max_lon_e7, Ghost(base), Ghost(acc));
    proof {
        acc = acc + le_bytes(twos_complement32(m.bounds.max_lon_e7), 4);
    }
    put_i32(writer, m.bounds.max_lat_e7, Ghost(base), Ghost(acc));
    proof {
        acc = acc + le_bytes(twos_complement32(m.bounds.max_lat_e7), 4);
    }
    let middle: u16 = (m.min_zoom as u16 + m.max_zoom as u16) / 2;
    writer.push(middle as u8);
    proof {
        assert(writer@ =~= base + (acc + seq![center_zoom(m)]));
        acc = acc + seq![center_zoom(m)];
    }
    put_i32(writer, m.center_lon_e7, Ghost(base), Ghost(acc));
    proof {
        acc = acc + le_bytes(twos_complement32(m.center_lon_e7), 4);
    }
    put_i32(writer, m.center_lat_e7, Ghost(base), Ghost(acc));
}

/// Appends the header of an archive.
pub fn write_header(writer: &mut Vec<u8>, metadata: &TileMetadata, layout: &Layout)
    ensures
        final(writer)@ == old(writer)@ + header_bytes(metadata, *layout),
{
    write_locations(writer, layout);
    write_description(writer, metadata);
    assert(writer@ =~= old(writer)@ + header_bytes(metadata, *layout));
}

/// A tile id with the place of its tile in the input.
pub type TileKey = (u64, usize);

/// The order of tiles in an archive: by id, tiles of one id in input order.
pub open spec fn key_leq(a: TileKey, b: TileKey) -> bool {
    a.0 < b.0 || (a.0 == b.0 && a.1 <= b.1)
}

/// Whether the keys never fall along the list.
pub open spec fn keys_sorted(s: Seq<TileKey>) -> bool {
    forall|i: int, j: int| 0 <= i < j < s.len() ==> key_leq(#[trigger] s[i], #[trigger] s[j])
}

/// The sorted list `s` with `k` put in its place.
pub open spec fn insert_key(s: Seq<TileKey>, k: TileKey) -> Seq<TileKey>
    decreases s.len(),
{
    if s.len() == 0 {
        seq![k]
    } else if key_leq(s.last(), k) {
        s.push(k)
    } else {
        insert_key(s.drop_last(), k).push(s.last())
    }
}

/// The keys of `s` in archive order.
pub open spec fn sorted_keys(s: Seq<TileKey>) -> Seq<TileKey>
    decreases s.len(),
{
    if s.len() == 0 {
        s
    } else {
        insert_key(sorted_keys(s.drop_last()), s.last())
    }
}

/// Putting a key in its place keeps the list sorted and adds that key alone.
proof fn lemma_insert_key(s: Seq<TileKey>, k: TileKey)
    requires
        keys_sorted(s),
    ensures
        keys_sorted(insert_key(s, k)),
        insert_key(s, k).len() == s.len() + 1,
        insert_key(s, k).to_multiset() == s.to_multiset().insert(k),
        forall|i: int|
            0 <= i < insert_key(s, k).len() ==> #[trigger] insert_key(s, k)[i] == k || s.contains(
                insert_key(s, k)[i],
            ),
    decreases s.len(),
{
    broadcast use vstd::multiset::group_multiset_axioms;
    broadcast use vstd::seq_lib::group_to_multiset_ensures;

    let r = insert_key(s, k);
    if s.len() == 0 {
        assert(s =~= Seq::<TileKey>::empty());
        assert(r =~= s.push(k));
    } else if key_leq(s.last(), k) {
        assert forall|i: int, j: int| 0 <= i < j < r.len() implies key_leq(
            #[trigger] r[i],
            #[trigger] r[j],
        ) by {
            if j == s.len() && i < s.len() - 1 {
                assert(key_leq(s[i], s[s.len() - 1]));
            }
        }
        assert forall|i: int| 0 <= i < r.len() implies #[trigger] r[i] == k || s.contains(
            r[i],
        ) by {
            if i < s.len() {
                assert(s[i] == r[i]);
            }
        }
    } else {
        let front = s.drop_last();
        let q = insert_key(front, k);
        lemma_insert_key(front, k);
        assert(s =~= front.push(s.last()));
        assert(r.to_multiset() =~= s.to_multiset().insert(k));
        assert forall|i: int, j: int| 0 <= i < j < r.len() implies key_leq(
            #[trigger] r[i],
            #[trigger] r[j],
        ) by {
            if j == q.len() {
                if q[i] != k {
                    assert(front.contains(q[i]));
                    let t = choose|t: int| 0 <= t < front.len() && front[t] == q[i];
                    assert(key_leq(s[t], s[s.len() - 1]));
                }
            } else {
                assert(key_leq(q[i], q[j]));
            }
        }
        assert forall|i: int| 0 <= i < r.len() implies #[trigger] r[i] == k || s.contains(
            r[i],
        ) by {
            if i < q.len() {
                if q[i] != k {
                    assert(front.contains(q[i]));
                    let t = choose|t: int| 0 <= t < front.len() && front[t] == q[i];
                    assert(s[t] == r[i]);
                }
            } else {
                assert(s[s.len() - 1] == r[i]);
            }
        }
    }
}

/// The keys in archive order are the given keys, each as often as given, and
/// never fall.
pub proof fn lemma_sorted_keys(s: Seq<TileKey>)
    ensures
        keys_sorted(sorted_keys(s)),
        sorted_keys(s).len() == s.len(),
        sorted_keys(s).to_multiset() == s.to_multiset(),
        forall|i: int| 0 <= i < s.len() ==> s.contains(#[trigger] sorted_keys(s)[i]),
        forall|i: int| 0 <= i < s.len() ==> sorted_keys(s).contains(#[trigger] s[i]),
    decreases s.len(),
{
    broadcast use vstd::multiset::group_multiset_axioms;
    broadcast use vstd::seq_lib::group_to_multiset_ensures;

    if s.len() > 0 {
        let front = s.drop_last();
        lemma_sorted_keys(front);
        lemma_insert_key(sorted_keys(front), s.last());
        assert(s =~= front.push(s.last()));
        assert forall|i: int| 0 <= i < s.len() implies s.contains(
            #[trigger] sorted_keys(s)[i],
        ) by {
            let v = sorted_keys(s)[i];
            if v != s.last() {
                assert(sorted_keys(front).contains(v));
                let t = choose|t: int| 0 <= t < front.len() && sorted_keys(front)[t] == v;
                assert(front.contains(v));
                let u = choose|u: int| 0 <= u < front.len() && front[u] == v;
                assert(s[u] == v);
            } else {
                assert(s[s.len() - 1] == v);
            }
        }
        assert forall|i: int| 0 <= i < s.len() implies sorted_keys(s).contains(
            #[trigger] s[i],
        ) by {
            assert(s.contains(s[i]));
            assert(s.to_multiset().count(s[i]) > 0);
            assert(sorted_keys(s).to_multiset().count(s[i]) > 0);
        }
    }
}

/// Decides `key_leq`.
fn key_before(a: TileKey, b: TileKey) -> (r: bool)
    ensures
        r == key_leq(a, b),
{
    a.0 < b.0 || (a.0 == b.0 && a.1 <= b.1)
}

/// Merges two sorted lists of keys into one.
fn merge_keys(a: &Vec<TileKey>, b: &Vec<TileKey>) -> (out: Vec<TileKey>)
    requires
        keys_sorted(a@),
        keys_sorted(b@),
    ensures
        keys_sorted(out@),
        out@.to_multiset() == a@.to_multiset().add(b@.to_multiset()),
{
    broadcast use vstd::multiset::group_multiset_axioms;
    broadcast use vstd::seq_lib::group_to_multiset_ensures;

    let mut out: Vec<TileKey> = Vec::new();
    let mut i: usize = 0;
    let mut j: usize = 0;
    proof {
        assert(a@.take(0) =~= Seq::<TileKey>::empty());
        assert(b@.take(0) =~= Seq::<TileKey>::empty());
        assert(out@.to_multiset() =~= a@.take(0).to_multiset().add(b@.take(0).to_multiset()));
    }
    while i < a.len() || j < b.len()
        invariant
            i <= a.len(),
            j <= b.len(),
            keys_sorted(a@),
            keys_sorted(b@),
            keys_sorted(out@),
            out@.to_multiset() == a@.take(i as int).to_multiset().add(
                b@.take(j as int).to_multiset(),
            ),
            forall|k: int|
                0 <= k < out@.len() ==> (i < a.len() ==> key_leq(#[trigger] out@[k], a@[i as int]))
                    && (j < b.len() ==> key_leq(out@[k], b@[j as int])),
        decreases a.len() - i + b.len() - j,
    {
        let ghost before = out@;
        if j >= b.len() || (i < a.len() && key_before(a[i], b[j])) {
            out.push(a[i]);
            proof {
                let x = a@[i as int];
                assert(a@.take(i + 1) =~= a@.take(i as int).push(x));
                assert(out@ =~= before.push(x));
                vstd::seq_lib::to_multiset_build(before, x);
                vstd::seq_lib::to_multiset_build(a@.take(i as int), x);
                assert(a@.take(i as int).to_multiset().add(b@.take(j as int).to_multiset()).insert(
                    x,
                ) =~= a@.take(i as int).to_multiset().insert(x).add(
                    b@.take(j as int).to_multiset(),
                ));
                assert forall|p: int, q: int| 0 <= p < q < out@.len() implies key_leq(
                    #[trigger] out@[p],
                    #[trigger] out@[q],
                ) by {
                    if q < before.len() {
                        assert(key_leq(before[p], before[q]));
                    } else {
                        assert(key_leq(before[p], a@[i as int]));
                    }
                }
                assert forall|k: int| 0 <= k < out@.len() implies (i + 1 < a.len() ==> key_leq(
                    #[trigger] out@[k],
                    a@[i + 1],
                )) && (j < b.len() ==> key_leq(out@[k], b@[j as int])) by {
                    if i + 1 < a.len() {
                        assert(key_leq(a@[i as int], a@[i + 1]));
                    }
                    if k < before.len() {
                        assert(key_leq(before[k], a@[i as int]));
                    }
                }
            }
            i += 1;
        } else {
            out.push(b[j]);
            proof {
                let x = b@[j as int];
                assert(b@.take(j + 1) =~= b@.take(j as int).push(x));
                assert(out@ =~= before.push(x));
                vstd::seq_lib::to_multiset_build(before, x);
                vstd::seq_lib::to_multiset_build(b@.take(j as int), x);
                assert(a@.take(i as int).to_multiset().add(b@.take(j as int).to_multiset()).insert(
                    x,
                ) =~= a@.take(i as int).to_multiset().add(
                    b@.take(j as int).to_multiset().insert(x),
                ));
                assert forall|p: int, q: int| 0 <= p < q < out@.len() implies key_leq(
                    #[trigger] out@[p],
                    #[trigger] out@[q],
                ) by {
                    if q < before.len() {
                        assert(key_leq(before[p], before[q]));
                    } else {
                        assert(key_leq(before[p], b@[j as int]));
                    }
                }
                assert forall|k: int| 0 <= k < out@.len() implies (i < a.len() ==> key_leq(
                    #[trigger] out@[k],
                    a@[i as int],
                )) && (j + 1 < b.len() ==> key_leq(out@[k], b@[j + 1])) by {
                    if j + 1 < b.len() {
                        assert(key_leq(b@[j as int], b@[j + 1]));
                    }
                    if k < before.len() {
                        assert(key_leq(before[k], b@[j as int]));
                    }
                }
            }
            j += 1;
        }
    }
    proof {
        assert(a@.take(i as int) =~= a@);
        assert(b@.take(j as int) =~= b@);
    }
    out
}

/// Sorts the keys from `lo` up to `hi` by merging the sorted halves.
fn sort_range(keys: &Vec<TileKey>, lo: usize, hi: usize) -> (out: Vec<TileKey>)
    requires
        lo <= hi <= keys.len(),
    ensures
        keys_sorted(out@),
        out@.to_multiset() == keys@.subrange(lo as int, hi as int).to_multiset(),
    decreases hi - lo,
{
    broadcast use vstd::multiset::group_multiset_axioms;
    broadcast use vstd::seq_lib::group_to_multiset_ensures;

    if hi - lo <= 1 {
        let mut out: Vec<TileKey> = Vec::new();
        if hi > lo {
            out.push(keys[lo]);
        }
        assert(out@ =~= keys@.subrange(lo as int, hi as int));
        out
    } else {
        let mid: usize = lo + (hi - lo) / 2;
        let left = sort_range(keys, lo, mid);
        let right = sort_range(keys, mid, hi);
        proof {
            let l = keys@.subrange(lo as int, mid as int);
            let r = keys@.subrange(mid as int, hi as int);
            assert(keys@.subrange(lo as int, hi as int) =~= l + r);
            vstd::seq_lib::lemma_multiset_commutative(l, r);
        }
        merge_keys(&left, &right)
    }
}

/// Puts the keys in archive order.
pub fn order_keys(keys: &mut Vec<TileKey>)
    ensures
        final(keys)@ == sorted_keys(old(keys)@),
{
    let sorted = sort_range(keys, 0, keys.len());
    proof {
        let leq = |a: TileKey, b: TileKey| key_leq(a, b);
        assert(keys@.subrange(0, keys@.len() as int) =~= keys@);
        lemma_sorted_keys(keys@);
        assert(vstd::relations::total_ordering(leq));
        assert(vstd::relations::sorted_by(sorted@, leq));
        assert(vstd::relations::sorted_by(sorted_keys(keys@), leq));
        vstd::seq_lib::lemma_sorted_unique(sorted@, sorted_keys(keys@), leq);
    }
    *keys = sorted;
}

/// The data of the first `n` entries, one after the other.
pub open spec fn blobs_concat(entries: Seq<TileEntryView>, n: int) -> Seq<u8>
    decreases n,
{
    if n <= 0 {
        Seq::<u8>::empty()
    } else {
        blobs_concat(entries, n - 1) + entries[n - 1].data
    }
}

/// Where the parts of an archive lie: the compressed directory behind the
/// header, the compressed JSON metadata behind the directory, the tile data
/// behind the metadata.
pub open spec fn archive_layout(
    entries: Seq<TileEntryView>,
    gz_dir: Seq<u8>,
    gz_json: Seq<u8>,
) -> Layout {
    Layout {
        tile_count: entries.len() as u64,
        root_directory_offset: HEADER_SIZE as u64,
        root_directory_length: gz_dir.len() as u64,
        json_metadata_offset: (HEADER_SIZE + gz_dir.len()) as u64,
        json_metadata_length: gz_json.len() as u64,
        tile_data_offset: (HEADER_SIZE + gz_dir.len() + gz_json.len()) as u64,
        tile_data_length: lengths_before(entries, entries.len() as int) as u64,
    }
}

/// The bytes of an archive: header, compressed directory, compressed JSON
/// metadata, then the data of the entries in order.
pub open spec fn archive_bytes(
    m: &TileMetadata,
    entries: Seq<TileEntryView>,
    gz_dir: Seq<u8>,
    gz_json: Seq<u8>,
) -> Seq<u8> {
    header_bytes(m, archive_layout(entries, gz_dir, gz_json)) + gz_dir + gz_json + blobs_concat(
        entries,
        entries.len() as int,
    )
}

/// The data of the first `n` entries of a packed list is as long as the sum
/// of their lengths.
proof fn lemma_blobs_len(entries: Seq<TileEntryView>, n: int)
    requires
        entries_packed(entries),
        n <= entries.len(),
    ensures
        blobs_concat(entries, n).len() == lengths_before(entries, n),
    decreases n,
{
    if n > 0 {
        lemma_blobs_len(entries, n - 1);
        assert(entries[n - 1].length == entries[n - 1].data.len());
    }
}

/// Puts an archive together from its metadata, its packed entries, and the
/// compressed directory and JSON metadata.
pub fn assemble_archive(
    metadata: &TileMetadata,
    entries: &[TileEntry],
    gz_dir: &[u8],
    gz_json: &[u8],
) -> (out: Vec<u8>)
    requires
        entries_packed(entries_view(entries@)),
    ensures
        out@ == archive_bytes(metadata, entries_view(entries@), gz_dir@, gz_json@),
        out@.len() >= HEADER_SIZE,
        out@.take(8) == magic_bytes(),
{
    let ghost ev = entries_view(entries@);
    let mut out: Vec<u8> = Vec::new();
    let mut i: usize = 0;
    while i < HEADER_SIZE
        invariant
            i <= HEADER_SIZE,
            out@.len() == i,
        decreases HEADER_SIZE - i,
    {
        out.push(0);
        i += 1;
    }
    let ghost blank = out@;
    put_bytes(&mut out, gz_dir);
    let json_offset: usize = out.len();
    put_bytes(&mut out, gz_json);
    let tiles_offset: usize = out.len();
    let ghost front = out@;
    let mut i: usize = 0;
    while i < entries.len()
        invariant
            i <= entries.len(),
            ev == entries_view(entries@),
            out@ == front + blobs_concat(ev, i as int),
        decreases entries.len() - i,
    {
        assert(ev[i as int] == entries@[i as int]@);
        put_bytes(&mut out, entries[i].data.as_slice());
        assert(out@ =~= front + blobs_concat(ev, i + 1));
        i += 1;
    }
    proof {
        lemma_blobs_len(ev, ev.len() as int);
    }
    let layout = Layout {
        tile_count: entries.len() as u64,
        root_directory_offset: HEADER_SIZE as u64,
        root_directory_length: gz_dir.len() as u64,
        json_metadata_offset: json_offset as u64,
        json_metadata_length: gz_json.len() as u64,
        tile_data_offset: tiles_offset as u64,
        tile_data_length: (out.len() - tiles_offset) as u64,
    };
    assert(layout == archive_layout(ev, gz_dir@, gz_json@));
    let mut head: Vec<u8> = Vec::new();
    write_header(&mut head, metadata, &layout);
    proof {
        lemma_header_shape(metadata, layout);
        assert(head@ =~= header_bytes(metadata, layout));
    }
    let ghost filled = out@;
    let mut i: usize = 0;
    while i < HEADER_SIZE
        invariant
            i <= HEADER_SIZE,
            head@.len() == HEADER_SIZE,
            filled.len() >= HEADER_SIZE,
            out@ == head@.take(i as int) + filled.skip(i as int),
        decreases HEADER_SIZE - i,
    {
        out.set(i, head[i]);
        assert(out@ =~= head@.take(i + 1) + filled.skip(i + 1));
        i += 1;
    }
    assert(out@ =~= archive_bytes(metadata, ev, gz_dir@, gz_json@));
    assert(out@.take(8) =~= head@.take(8));
    out
}

/// Whether the JSON metadata can be compressed.
pub open spec fn metadata_compressible(m: &TileMetadata) -> bool {
    compressible(vstd::utf8::encode_utf8(metadata_json(m)))
}

/// Writes the JSON metadata of an archive and compresses it.
///
/// Fails with `EncodeFailed` exactly when a text of the metadata cannot be
/// serialised; else with `CompressionFailed` exactly when the JSON text
/// cannot be compressed.
pub fn generate_json_metadata(metadata: &TileMetadata) -> (r: Result<Vec<u8>, TileError>)
    ensures
        r == Err::<Vec<u8>, TileError>(TileError::EncodeFailed) <==> !metadata_quotable(metadata),
        r is Ok <==> metadata_quotable(metadata) && metadata_compressible(metadata),
        match r {
            Ok(out) => out@ == gzip_bytes(vstd::utf8::encode_utf8(metadata_json(metadata))),
            Err(e) => e == TileError::EncodeFailed || e == TileError::CompressionFailed,
        },
{
    let text = match metadata_json_text(metadata) {
        Ok(text) => text,
        Err(e) => {
            return Err(e);
        },
    };
    match gzip(text.as_str().as_bytes()) {
        Some(out) => Ok(out),
        None => Err(TileError::CompressionFailed),
    }
}

/// What a list of tiles holds, as mathematical values.
pub open spec fn tiles_view(tiles: Seq<(TileCoord, Vec<u8>)>) -> Seq<(TileCoord, Seq<u8>)> {
    tiles.map_values(|t: (TileCoord, Vec<u8>)| (t.0, t.1@))
}

/// The key of each tile: its id and its place in the list.
pub open spec fn tile_keys(tiles: Seq<(TileCoord, Seq<u8>)>) -> Seq<TileKey> {
    Seq::new(
        tiles.len(),
        |i: int| (tile_id(tiles[i].0.z, tiles[i].0.x, tiles[i].0.y), i as usize),
    )
}

/// The first `n` entries of the archive of `tiles` taken in the order
/// `order`: each tile's data compressed, the entries packed.
pub open spec fn archive_entries(
    tiles: Seq<(TileCoord, Seq<u8>)>,
    order: Seq<TileKey>,
    n: int,
) -> Seq<TileEntryView>
    decreases n,
{
    if n <= 0 {
        Seq::<TileEntryView>::empty()
    } else {
        let before = archive_entries(tiles, order, n - 1);
        let data = gzip_bytes(tiles[order[n - 1].1 as int].1);
        before.push(
            TileEntryView {
                tile_id: order[n - 1].0,
                offset: lengths_before(before, n - 1) as u64,
                length: data.len() as u32,
                data: data,
            },
        )
    }
}

/// Whether every compressed tile is short enough for a 32-bit length and
/// starts at an offset that 64 bits can say.
pub open spec fn entries_fit(entries: Seq<TileEntryView>) -> bool {
    forall|i: int|
        0 <= i < entries.len() ==> (#[trigger] entries[i]).data.len() <= u32::MAX
            && lengths_before(entries, i) <= u64::MAX
}

/// The entries of the archive of `tiles`, in archive order.
pub open spec fn pmtiles_entries(tiles: Seq<(TileCoord, Seq<u8>)>) -> Seq<TileEntryView> {
    archive_entries(tiles, sorted_keys(tile_keys(tiles)), tiles.len() as int)
}

/// The archive of `tiles` with the metadata `m`.
#[verifier::opaque]
pub open spec fn pmtiles_archive(tiles: Seq<(TileCoord, Seq<u8>)>, m: &TileMetadata) -> Seq<u8> {
    let entries = pmtiles_entries(tiles);
    archive_bytes(
        m,
        entries,
        gzip_bytes(directory_bytes(entries)),
        gzip_bytes(vstd::utf8::encode_utf8(metadata_json(m))),
    )
}

/// Whether the data of every tile can be compressed.
pub open spec fn tiles_compressible(tiles: Seq<(TileCoord, Seq<u8>)>) -> bool {
    forall|i: int| 0 <= i < tiles.len() ==> compressible((#[trigger] tiles[i]).1)
}

/// What packing `tiles` with the metadata `m` gives: `EmptyArchive` for no
/// tile; else `InvalidZoom` for a tile above zoom 30; else
/// `CompressionFailed` where a tile or the directory cannot be compressed or
/// a compressed tile does not fit the directory's number widths; else
/// `EncodeFailed` where a text of the metadata cannot be serialised; else
/// `CompressionFailed` where the JSON metadata cannot be compressed; else
/// the archive.
pub open spec fn pmtiles_result(tiles: Seq<(TileCoord, Seq<u8>)>, m: &TileMetadata) -> Result<
    Seq<u8>,
    TileError,
> {
    if tiles.len() == 0 {
        Err(TileError::EmptyArchive)
    } else if !zooms_valid(tiles) {
        Err(TileError::InvalidZoom)
    } else if !tiles_compressible(tiles) || !entries_fit(pmtiles_entries(tiles)) || !compressible(
        directory_bytes(pmtiles_entries(tiles)),
    ) {
        Err(TileError::CompressionFailed)
    } else if !metadata_quotable(m) {
        Err(TileError::EncodeFailed)
    } else if !metadata_compressible(m) {
        Err(TileError::CompressionFailed)
    } else {
        Ok(pmtiles_archive(tiles, m))
    }
}

/// Packing with metadata that hold the same values gives the same outcome.
pub proof fn lemma_same_metadata_result(
    tiles: Seq<(TileCoord, Seq<u8>)>,
    a: &TileMetadata,
    b: &TileMetadata,
)
    requires
        same_metadata(a, b),
    ensures
        pmtiles_result(tiles, a) == pmtiles_result(tiles, b),
{
    reveal(pmtiles_archive);
    lemma_same_metadata(a, b);
    let entries = pmtiles_entries(tiles);
    let gz_dir = gzip_bytes(directory_bytes(entries));
    let gz_json = gzip_bytes(vstd::utf8::encode_utf8(metadata_json(a)));
    assert(description_bytes(a) == description_bytes(b));
    assert(archive_bytes(a, entries, gz_dir, gz_json) == archive_bytes(
        b,
        entries,
        gz_dir,
        gz_json,
    ));
}

/// Whether `r` is the outcome `want`: the same bytes, or the same error.
pub open spec fn outcome_is(r: Result<Vec<u8>, TileError>, want: Result<Seq<u8>, TileError>) -> bool {
    match r {
        Ok(bytes) => want == Ok::<Seq<u8>, TileError>(bytes@),
        Err(e) => want == Err::<Seq<u8>, TileError>(e),
    }
}

/// Whether every tile lies at a zoom of the pyramid.
pub open spec fn zooms_valid(tiles: Seq<(TileCoord, Seq<u8>)>) -> bool {
    forall|i: int| 0 <= i < tiles.len() ==> (#[trigger] tiles[i]).0.z <= MAX_ZOOM
}

/// The first `n` archive entries carry the ids of `order`, in that order,
/// and the compressed data of the tiles that `order` names.
proof fn lemma_archive_entries_ids(tiles: Seq<(TileCoord, Seq<u8>)>, order: Seq<TileKey>, n: int)
    requires
        0 <= n <= order.len(),
    ensures
        archive_entries(tiles, order, n).len() == n,
        forall|i: int|
            0 <= i < n ==> (#[trigger] archive_entries(tiles, order, n)[i]).tile_id == order[i].0,
        forall|i: int|
            0 <= i < n ==> (#[trigger] archive_entries(tiles, order, n)[i]).data == gzip_bytes(
                tiles[order[i].1 as int].1,
            ),
    decreases n,
{
    if n > 0 {
        lemma_archive_entries_ids(tiles, order, n - 1);
    }
}

/// The first `m` archive entries open the list of the first `n`.
proof fn lemma_archive_entries_prefix(
    tiles: Seq<(TileCoord, Seq<u8>)>,
    order: Seq<TileKey>,
    m: int,
    n: int,
)
    requires
        0 <= m <= n <= order.len(),
    ensures
        archive_entries(tiles, order, m).len() == m,
        archive_entries(tiles, order, n).len() == n,
        forall|j: int|
            0 <= j < m ==> archive_entries(tiles, order, m)[j] == #[trigger] archive_entries(
                tiles,
                order,
                n,
            )[j],
    decreases n - m,
{
    lemma_archive_entries_ids(tiles, order, m);
    lemma_archive_entries_ids(tiles, order, n);
    if m < n {
        lemma_archive_entries_prefix(tiles, order, m, n - 1);
    }
}

/// Archive entries that fit are packed.
proof fn lemma_archive_entries_packed(
    tiles: Seq<(TileCoord, Seq<u8>)>,
    order: Seq<TileKey>,
    n: int,
)
    requires
        0 <= n <= order.len(),
        entries_fit(archive_entries(tiles, order, n)),
    ensures
        entries_packed(archive_entries(tiles, order, n)),
    decreases n,
{
    if n > 0 {
        let all = archive_entries(tiles, order, n);
        let before = archive_entries(tiles, order, n - 1);
        lemma_archive_entries_prefix(tiles, order, n - 1, n);
        assert forall|i: int| 0 <= i < before.len() implies (#[trigger] before[i]).data.len()
            <= u32::MAX && lengths_before(before, i) <= u64::MAX by {
            assert(all[i] == before[i]);
            lemma_lengths_before_prefix(before, all, i);
        }
        lemma_archive_entries_packed(tiles, order, n - 1);
        assert forall|i: int| 0 <= i < all.len() implies (#[trigger] all[i]).length
            == all[i].data.len() && all[i].offset == lengths_before(all, i) by {
            lemma_lengths_before_prefix(before, all, i);
            if i < n - 1 {
                assert(all[i] == before[i]);
            } else {
                assert(all[i].data.len() <= u32::MAX);
            }
        }
    }
}

/// The entries of an archive are packed whenever they fit, and their ids
/// never fall; where no two tiles have one id, the ids rise from each entry
/// to the next.
pub proof fn lemma_pmtiles_entries(tiles: Seq<(TileCoord, Seq<u8>)>)
    ensures
        pmtiles_entries(tiles).len() == tiles.len(),
        ids_ascending(pmtiles_entries(tiles)),
        entries_fit(pmtiles_entries(tiles)) ==> entries_packed(pmtiles_entries(tiles)),
        ids_distinct(pmtiles_entries(tiles)) ==> ids_strictly_ascending(pmtiles_entries(tiles)),
{
    let order = sorted_keys(tile_keys(tiles));
    let n = tiles.len() as int;
    let entries = pmtiles_entries(tiles);
    lemma_sorted_keys(tile_keys(tiles));
    lemma_archive_entries_ids(tiles, order, n);
    assert forall|i: int, j: int| 0 <= i <= j < entries.len() implies (#[trigger] entries[i]).tile_id
        <= (#[trigger] entries[j]).tile_id by {
        if i < j {
            assert(key_leq(order[i], order[j]));
        }
    }
    if entries_fit(entries) {
        lemma_archive_entries_packed(tiles, order, n);
    }
}

/// Deepest zoom at which the Hilbert index stays below the zoom byte of a
/// tile id, so that every tile has an id of its own.
pub const MAX_ID_ZOOM: u8 = 28;

/// Up to zoom 28, two tiles of the pyramid with one id are the same tile.
pub proof fn lemma_tile_id_injective(a: TileCoord, b: TileCoord)
    requires
        a.well_formed(),
        b.well_formed(),
        a.z <= MAX_ID_ZOOM,
        b.z <= MAX_ID_ZOOM,
        tile_id(a.z, a.x, a.y) == tile_id(b.z, b.x, b.y),
    ensures
        a == b,
{
    let ha = hilbert_index(a.z as nat, a.x as int, a.y as int);
    let hb = hilbert_index(b.z as nat, b.x as int, b.y as int);
    lemma_hilbert_index_range(a.z as nat, a.x as int, a.y as int);
    lemma_hilbert_index_range(b.z as nat, b.x as int, b.y as int);
    lemma_cells_bound(a.z);
    lemma_cells_bound(b.z);
    let (za, zb) = (a.z as u64, b.z as u64);
    let (ua, ub) = (ha as u64, hb as u64);
    assert(za == zb && ua == ub) by (bit_vector)
        requires
            za < 256,
            zb < 256,
            ua < 0x100_0000_0000_0000,
            ub < 0x100_0000_0000_0000,
            (za << 56) | ua == (zb << 56) | ub,
    ;
    crate::hilbert::lemma_point_of_index(a.z as nat, a.x as int, a.y as int);
    crate::hilbert::lemma_point_of_index(b.z as nat, b.x as int, b.y as int);
}

/// Up to zoom 28 a grid has at most `2^56` cells.
proof fn lemma_cells_bound(z: u8)
    requires
        z <= MAX_ID_ZOOM,
    ensures
        cells(z as nat) <= 0x100_0000_0000_0000,
{
    vstd::arithmetic::power2::lemma2_to64();
    vstd::arithmetic::power2::lemma_pow2_pos(z as nat);
    if z < 28 {
        vstd::arithmetic::power2::lemma_pow2_strictly_increases(z as nat, 28);
    }
    let s = side(z as nat);
    assert(s * s <= 0x100_0000_0000_0000) by (nonlinear_arith)
        requires
            0 <= s <= 0x1000_0000,
    ;
}

/// Whether the tiles lie on the pyramid up to zoom 28, no two at one
/// address.
pub open spec fn tiles_distinct(tiles: Seq<(TileCoord, Seq<u8>)>) -> bool {
    &&& forall|i: int|
        0 <= i < tiles.len() ==> (#[trigger] tiles[i]).0.well_formed() && tiles[i].0.z
            <= MAX_ID_ZOOM
    &&& forall|i: int, j: int|
        0 <= i < j < tiles.len() ==> (#[trigger] tiles[i]).0 != (#[trigger] tiles[j]).0
}

/// The ids in the directory of an archive rise from each entry to the next,
/// for tiles of the pyramid up to zoom 28 at different addresses.
pub proof fn lemma_archive_ids_rise(tiles: Seq<(TileCoord, Seq<u8>)>)
    requires
        tiles_distinct(tiles),
        tiles.len() <= usize::MAX,
    ensures
        ids_strictly_ascending(pmtiles_entries(tiles)),
{
    let keys = tile_keys(tiles);
    let order = sorted_keys(keys);
    let n = tiles.len() as int;
    let entries = pmtiles_entries(tiles);
    lemma_sorted_keys(keys);
    lemma_archive_entries_ids(tiles, order, n);
    lemma_pmtiles_entries(tiles);
    assert forall|i: int, j: int| 0 <= i < j < entries.len() implies (#[trigger] entries[i]).tile_id
        != (#[trigger] entries[j]).tile_id by {
        assert(keys.contains(order[i]));
        assert(keys.contains(order[j]));
        let s = choose|s: int| 0 <= s < keys.len() && keys[s] == order[i];
        let t = choose|t: int| 0 <= t < keys.len() && keys[t] == order[j];
        if order[i].0 == order[j].0 {
            lemma_tile_id_injective(tiles[s].0, tiles[t].0);
            assert(s == t);
            assert forall|p: int, q: int|
                0 <= p < keys.len() && 0 <= q < keys.len() && p != q implies keys[p]
                != keys[q] by {
                assert(keys[p].1 == p && keys[q].1 == q);
            }
            keys.lemma_multiset_has_no_duplicates();
            order.lemma_multiset_has_no_duplicates_conv();
            assert(order[i] != order[j]);
        }
    }
}

/// Packs tiles into a PMTiles v3 archive: the tiles sorted by id, tiles of
/// one id in the order given, each compressed with gzip; behind the header
/// the compressed directory and JSON metadata, then the tile data.
///
/// The outcome is that of `pmtiles_result`: `EmptyArchive` on no tile;
/// `InvalidZoom` when a tile lies above zoom 30; `CompressionFailed` when a
/// tile, the directory or the JSON metadata cannot be compressed or a
/// compressed tile does not fit the directory's number widths;
/// `EncodeFailed` when a text of the metadata cannot be serialised; and the
/// archive in every other case.
pub fn encode_pmtiles(tiles: Vec<(TileCoord, Vec<u8>)>, metadata: &TileMetadata) -> (r: Result<
    Vec<u8>,
    TileError,
>)
    ensures
        outcome_is(r, pmtiles_result(tiles_view(tiles@), metadata)),
        tiles@.len() == 0 <==> r == Err::<Vec<u8>, TileError>(TileError::EmptyArchive),
        tiles@.len() > 0 && !zooms_valid(tiles_view(tiles@)) <==> r == Err::<Vec<u8>, TileError>(
            TileError::InvalidZoom,
        ),
        tiles@.len() > 0 && zooms_valid(tiles_view(tiles@)) && !entries_fit(pmtiles_entries(tiles_view(tiles@))) ==> r
            == Err::<Vec<u8>, TileError>(TileError::CompressionFailed),
        match r {
            Ok(bytes) => {
                &&& bytes@ == pmtiles_archive(tiles_view(tiles@), metadata)
                &&& bytes@.len() >= HEADER_SIZE
                &&& bytes@.take(8) == magic_bytes()
                &&& entries_fit(pmtiles_entries(tiles_view(tiles@)))
            },
            Err(e) => e == TileError::EmptyArchive || e == TileError::InvalidZoom || e
                == TileError::CompressionFailed || e == TileError::EncodeFailed,
        },
{
    let n = tiles.len();
    reveal(pmtiles_archive);
    if n == 0 {
        return Err(TileError::EmptyArchive);
    }
    let mut keys: Vec<TileKey> = Vec::new();
    let mut i: usize = 0;
    while i < n
        invariant
            i <= n == tiles.len(),
            keys@ == tile_keys(tiles_view(tiles@)).take(i as int),
            forall|j: int| 0 <= j < i ==> (#[trigger] tiles_view(tiles@)[j]).0.z <= MAX_ZOOM,
        decreases n - i,
    {
        let coord = tiles[i].0;
        assert(tiles_view(tiles@)[i as int].0 == coord);
        if coord.z > MAX_ZOOM {
            return Err(TileError::InvalidZoom);
        }
        keys.push((coord_to_tile_id(coord.z, coord.x, coord.y), i));
        assert(keys@ =~= tile_keys(tiles_view(tiles@)).take(i + 1));
        i += 1;
    }
    assert(keys@ =~= tile_keys(tiles_view(tiles@)));
    order_keys(&mut keys);
    let ghost order = keys@;
    proof {
        lemma_sorted_keys(tile_keys(tiles_view(tiles@)));
        lemma_archive_entries_ids(tiles_view(tiles@), order, n as int);
    }
    let mut entries: Vec<TileEntry> = Vec::new();
    let mut k: usize = 0;
    assert(entries_view(entries@) =~= archive_entries(tiles_view(tiles@), order, 0));
    while k < n
        invariant
            k <= n == tiles.len(),
            n > 0,
            zooms_valid(tiles_view(tiles@)),
            order == keys@,
            order == sorted_keys(tile_keys(tiles_view(tiles@))),
            order.len() == n,
            forall|i: int| 0 <= i < n ==> tile_keys(tiles_view(tiles@)).contains(#[trigger] order[i]),
            entries@.len() == k,
            entries_view(entries@) == archive_entries(tiles_view(tiles@), order, k as int),
            entries_packed(entries_view(entries@)),
            forall|i: int|
                0 <= i < k ==> (#[trigger] entries_view(entries@)[i]).data.len() <= u32::MAX
                    && lengths_before(entries_view(entries@), i) <= u64::MAX,
            forall|i: int|
                0 <= i < k ==> compressible(
                    tiles_view(tiles@)[(#[trigger] order[i]).1 as int].1,
                ),
        decreases n - k,
    {
        let key = keys[k];
        proof {
            assert(tile_keys(tiles_view(tiles@)).contains(order[k as int]));
            let t = choose|t: int|
                0 <= t < tile_keys(tiles_view(tiles@)).len() && tile_keys(tiles_view(tiles@))[t] == order[k as int];
            assert(key.1 == t);
        }
        let ghost before = entries_view(entries@);
        let blob = match gzip(tiles[key.1].1.as_slice()) {
            Some(blob) => blob,
            None => {
                proof {
                    assert(tiles_view(tiles@)[key.1 as int].1 == tiles@[key.1 as int].1@);
                    assert(!compressible(tiles_view(tiles@)[key.1 as int].1));
                    assert(!tiles_compressible(tiles_view(tiles@)));
                }
                return Err(TileError::CompressionFailed);
            },
        };
        if !push_entry(&mut entries, key.0, blob) {
            proof {
                let all = pmtiles_entries(tiles_view(tiles@));
                lemma_archive_entries_ids(tiles_view(tiles@), order, n as int);
                lemma_archive_entries_prefix(tiles_view(tiles@), order, k as int, n as int);
                assert(all[k as int].data == blob@);
                lemma_lengths_before_prefix(before, all, k as int);
                assert(!entries_fit(all));
            }
            return Err(TileError::CompressionFailed);
        }
        proof {
            let after = entries_view(entries@);
            assert(after.len() == k + 1);
            assert(tiles_view(tiles@)[order[k as int].1 as int].1 == tiles@[order[k as int].1 as int].1@);
            assert(blob@ == gzip_bytes(tiles_view(tiles@)[order[k as int].1 as int].1));
            assert(after == archive_entries(tiles_view(tiles@), order, k + 1));
            assert(compressible(tiles_view(tiles@)[order[k as int].1 as int].1));
            assert forall|i: int| 0 <= i < k + 1 implies (#[trigger] after[i]).data.len()
                <= u32::MAX && lengths_before(after, i) <= u64::MAX by {
                lemma_lengths_before_prefix(before, after, if i < k { i } else { k as int });
                if i < k {
                    assert(after[i] == before[i]);
                }
            }
        }
        k += 1;
    }
    proof {
        lemma_pmtiles_entries(tiles_view(tiles@));
        assert(entries_view(entries@) == pmtiles_entries(tiles_view(tiles@)));
        assert(entries_fit(pmtiles_entries(tiles_view(tiles@))));
        let keyed = tile_keys(tiles_view(tiles@));
        lemma_sorted_keys(keyed);
        assert forall|t: int| 0 <= t < tiles_view(tiles@).len() implies compressible(
            (#[trigger] tiles_view(tiles@)[t]).1,
        ) by {
            assert(order.contains(keyed[t]));
            let at = choose|at: int| 0 <= at < order.len() && order[at] == keyed[t];
            assert(order[at].1 == t);
        }
        assert(tiles_compressible(tiles_view(tiles@)));
    }
    let gz_dir = match encode_directory(entries.as_slice()) {
        Ok(bytes) => bytes,
        Err(e) => {
            return Err(e);
        },
    };
    let gz_json = match generate_json_metadata(metadata) {
        Ok(bytes) => bytes,
        Err(e) => {
            return Err(e);
        },
    };
    Ok(assemble_archive(metadata, entries.as_slice(), gz_dir.as_slice(), gz_json.as_slice()))
}

} // verus!
