use vstd::prelude::*;
use crate::entry::{entries_view, names_directory, EntrySpec, ZipEntry};
use crate::names::{decode_name, invalid_utf8_text, name_text, UTF8_NAME_FLAG};
use vstd::utf8::valid_utf8;
use vstd::slice::slice_subrange;

verus! {

/// Size of the fixed part of a local file header, before the name.
pub const HEADER_LEN: usize = 30;

/// Bit of the general-purpose flag that marks an entry as encrypted.
pub const ENCRYPTED_FLAG: u16 = 0x0001;

/// The little-endian 16-bit value at `k` and `k + 1`.
pub open spec fn u16_le_at(d: Seq<u8>, k: int) -> u16 {
    (d[k] as int + 256 * d[k + 1] as int) as u16
}

/// A local file header signature `50 4B 03 04` starts at `i`.
pub open spec fn signature_at(d: Seq<u8>, i: int) -> bool {
    d[i] == 0x50u8 && d[i + 1] == 0x4Bu8 && d[i + 2] == 0x03u8 && d[i + 3] == 0x04u8
}

pub open spec fn flag_at(d: Seq<u8>, i: int) -> u16 {
    u16_le_at(d, i + 6)
}

pub open spec fn name_len_at(d: Seq<u8>, i: int) -> int {
    u16_le_at(d, i + 26) as int
}

pub open spec fn extra_len_at(d: Seq<u8>, i: int) -> int {
    u16_le_at(d, i + 28) as int
}

/// Where the name of the header at `i` ends.
pub open spec fn name_end_at(d: Seq<u8>, i: int) -> int {
    i + HEADER_LEN + name_len_at(d, i)
}

/// The entry that the header at `i` describes.
pub open spec fn entry_at(d: Seq<u8>, i: int) -> EntrySpec {
    let path = name_text(flag_at(d, i), d.subrange(i + HEADER_LEN, name_end_at(d, i)));
    EntrySpec {
        path,
        is_file: !names_directory(path),
        is_encrypted: flag_at(d, i) & ENCRYPTED_FLAG != 0,
    }
}

/// The entries that a scan of `d` finds from position `i` on: a header that
/// begins with the signature gives an entry and is skipped with its name and
/// extra field; any other byte is stepped over; a name that runs past the end
/// of `d` ends the scan. (A header may be skipped to at most 0xFFFF bytes
/// past the end, which bounds the measure.)
pub open spec fn entries_from(d: Seq<u8>, i: int) -> Seq<EntrySpec>
    decreases d.len() + 0x10000 - i,
{
    if 0 <= i && i + HEADER_LEN < d.len() {
        if signature_at(d, i) {
            if name_end_at(d, i) > d.len() {
                Seq::empty()
            } else {
                seq![entry_at(d, i)] + entries_from(d, name_end_at(d, i) + extra_len_at(d, i))
            }
        } else {
            entries_from(d, i + 1)
        }
    } else {
        Seq::empty()
    }
}

/// The entries of the archive in `d`, in the order of their headers.
pub open spec fn archive_entries(d: Seq<u8>) -> Seq<EntrySpec> {
    entries_from(d, 0)
}

/// A scan started at `j` arrives at position `i`: it steps or skips from `j`
/// onto `i` without ending on the way.
pub open spec fn reaches(d: Seq<u8>, j: int, i: int) -> bool
    decreases d.len() + 0x10000 - j,
{
    if j == i {
        0 <= i
    } else if 0 <= j && j < i && j + HEADER_LEN < d.len() {
        if signature_at(d, j) {
            name_end_at(d, j) <= d.len() && reaches(d, name_end_at(d, j) + extra_len_at(d, j), i)
        } else {
            reaches(d, j + 1, i)
        }
    } else {
        false
    }
}

/// The entries that a scan started at `j` lists before it arrives at `i`.
pub open spec fn entries_between(d: Seq<u8>, j: int, i: int) -> Seq<EntrySpec>
    decreases d.len() + 0x10000 - j,
{
    if 0 <= j && j < i && j + HEADER_LEN < d.len() {
        if signature_at(d, j) {
            if name_end_at(d, j) > d.len() {
                Seq::empty()
            } else {
                seq![entry_at(d, j)] + entries_between(d, name_end_at(d, j) + extra_len_at(d, j), i)
            }
        } else {
            entries_between(d, j + 1, i)
        }
    } else {
        Seq::empty()
    }
}

/// What a scan from `j` lists is what it lists before arriving at `i`,
/// followed by what it lists from `i` on.
pub proof fn lemma_scan_splits_at(d: Seq<u8>, j: int, i: int)
    requires
        reaches(d, j, i),
    ensures
        entries_from(d, j) == entries_between(d, j, i) + entries_from(d, i),
    decreases d.len() + 0x10000 - j,
{
    if j == i {
        assert(entries_between(d, j, i) + entries_from(d, i) =~= entries_from(d, i));
    } else if signature_at(d, j) {
        let next = name_end_at(d, j) + extra_len_at(d, j);
        lemma_scan_splits_at(d, next, i);
        assert(entries_from(d, j) =~= entries_between(d, j, i) + entries_from(d, i));
    } else {
        lemma_scan_splits_at(d, j + 1, i);
    }
}

/// The part of a scan that arrives at `i` reads only bytes before `i + 4`.
proof fn lemma_scan_up_to_reads_before(d1: Seq<u8>, d2: Seq<u8>, j: int, i: int)
    requires
        d1.len() == d2.len(),
        forall|p: int| 0 <= p < i + 4 && p < d1.len() ==> d1[p] == d2[p],
        reaches(d1, j, i),
    ensures
        reaches(d2, j, i),
        entries_between(d1, j, i) == entries_between(d2, j, i),
    decreases d1.len() + 0x10000 - j,
{
    if j != i {
        if signature_at(d1, j) {
            let next = name_end_at(d1, j) + extra_len_at(d1, j);
            lemma_scan_up_to_reads_before(d1, d2, next, i);
            assert(d1.subrange(j + HEADER_LEN, name_end_at(d1, j))
                =~= d2.subrange(j + HEADER_LEN, name_end_at(d1, j)));
        } else {
            lemma_scan_up_to_reads_before(d1, d2, j + 1, i);
        }
    }
}

fn read_u16_le(d: &[u8], k: usize) -> (r: u16)
    requires
        k + 1 < d@.len(),
    ensures
        r == u16_le_at(d@, k as int),
{
    d[k] as u16 + 256 * (d[k + 1] as u16)
}

/// Walks `data` for local file headers and returns the entries they describe,
/// in order.
pub fn scan_entries(data: &[u8]) -> (r: Vec<ZipEntry>)
    ensures
        entries_view(r@) == archive_entries(data@),
{
    let len = data.len();
    let mut entries: Vec<ZipEntry> = Vec::new();
    let mut i: usize = 0;
    while i < len && len - i > HEADER_LEN
        invariant
            len == data@.len(),
            i <= len,
            entries_view(entries@) + entries_from(data@, i as int) == archive_entries(data@),
        decreases len - i,
    {
        let ghost d = data@;
        let ghost before = entries_view(entries@);
        if data[i] == 0x50 && data[i + 1] == 0x4B && data[i + 2] == 0x03 && data[i + 3] == 0x04 {
            let flag = read_u16_le(data, i + 6);
            let name_len = read_u16_le(data, i + 26) as usize;
            let extra_len = read_u16_le(data, i + 28) as usize;
            let name_start = i + HEADER_LEN;
            if name_len > len - name_start {
                // the name runs past the end: the scan stops here
                assert(entries_from(d, i as int) == Seq::<EntrySpec>::empty());
                assert(entries_from(d, len as int) == Seq::<EntrySpec>::empty());
                i = len;
            } else {
                let name_end = name_start + name_len;
                let path = decode_name(flag, slice_subrange(data, name_start, name_end));
                let entry = ZipEntry::new(path, flag & ENCRYPTED_FLAG != 0);
                entries.push(entry);
                assert(entries_view(entries@) =~= before + seq![entry_at(d, i as int)]);
                let ghost skip_to = name_end + extra_len;
                assert(entries_from(d, i as int) =~= seq![entry_at(d, i as int)] + entries_from(d, skip_to as int));
                if extra_len >= len - name_end {
                    // the next header would start past the end: nothing is left
                    assert(entries_from(d, skip_to as int) == Seq::<EntrySpec>::empty());
                    assert(entries_from(d, len as int) == Seq::<EntrySpec>::empty());
                    i = len;
                } else {
                    i = name_end + extra_len;
                }
                assert(entries_view(entries@) + entries_from(d, i as int) =~= before
                    + entries_from(d, name_start as int - HEADER_LEN));
            }
        } else {
            i = i + 1;
        }
    }
    assert(entries_from(data@, i as int) == Seq::<EntrySpec>::empty());
    assert(entries_view(entries@) + Seq::<EntrySpec>::empty() =~= entries_view(entries@));
    entries
}

/// A buffer too short to hold one local file header lists no entries.
pub proof fn lemma_short_buffer_has_no_entries(d: Seq<u8>)
    requires
        d.len() < HEADER_LEN,
    ensures
        archive_entries(d) == Seq::<EntrySpec>::empty(),
{
}

/// Every entry found from `i` on is a file exactly when its path does not end
/// with a slash, whatever its flags.
pub proof fn lemma_directories_are_not_files(d: Seq<u8>, i: int)
    ensures
        forall|k: int| 0 <= k < entries_from(d, i).len() ==>
            (#[trigger] entries_from(d, i)[k]).is_file == !names_directory(entries_from(d, i)[k].path),
    decreases d.len() + 0x10000 - i,
{
    if 0 <= i && i + HEADER_LEN < d.len() {
        if signature_at(d, i) {
            if name_end_at(d, i) <= d.len() {
                let next = name_end_at(d, i) + extra_len_at(d, i);
                lemma_directories_are_not_files(d, next);
                let rest = entries_from(d, next);
                assert(entries_from(d, i) == seq![entry_at(d, i)] + rest);
                assert forall|k: int| 0 <= k < entries_from(d, i).len() implies
                    (#[trigger] entries_from(d, i)[k]).is_file == !names_directory(entries_from(d, i)[k].path) by {
                    if k > 0 {
                        assert(entries_from(d, i)[k] == rest[k - 1]);
                    } else {
                        assert(entries_from(d, i)[k] == entry_at(d, i));
                    }
                }
            }
        } else {
            lemma_directories_are_not_files(d, i + 1);
            assert(entries_from(d, i) == entries_from(d, i + 1));
        }
    }
}

/// A header that the scan arrives at, whose name would run past the end of the
/// buffer, ends the scan: the listing is exactly the entries found before it.
pub proof fn lemma_truncated_name_ends_scan(d: Seq<u8>, i: int)
    requires
        reaches(d, 0, i),
        i + HEADER_LEN < d.len(),
        signature_at(d, i),
        name_end_at(d, i) > d.len(),
    ensures
        archive_entries(d) == entries_between(d, 0, i),
{
    lemma_scan_splits_at(d, 0, i);
    assert(entries_from(d, i) == Seq::<EntrySpec>::empty());
    assert(entries_between(d, 0, i) + Seq::<EntrySpec>::empty() =~= entries_between(d, 0, i));
}

/// A header that the scan arrives at, whose name is flagged UTF-8 but is not
/// well-formed, lists with the placeholder path, and the scan goes on after
/// its name and extra field as for any other entry.
pub proof fn lemma_invalid_utf8_name_is_replaced(d: Seq<u8>, i: int)
    requires
        reaches(d, 0, i),
        i + HEADER_LEN < d.len(),
        signature_at(d, i),
        name_end_at(d, i) <= d.len(),
        flag_at(d, i) & UTF8_NAME_FLAG != 0,
        !valid_utf8(d.subrange(i + HEADER_LEN, name_end_at(d, i))),
    ensures
        archive_entries(d) == entries_between(d, 0, i) + seq![
            EntrySpec {
                path: invalid_utf8_text(),
                is_file: true,
                is_encrypted: flag_at(d, i) & ENCRYPTED_FLAG != 0,
            },
        ] + entries_from(d, name_end_at(d, i) + extra_len_at(d, i)),
{
    lemma_scan_splits_at(d, 0, i);
    reveal_strlit("[invalid utf8]");
    assert(!names_directory(invalid_utf8_text()));
    assert(entry_at(d, i) == EntrySpec {
        path: invalid_utf8_text(),
        is_file: true,
        is_encrypted: flag_at(d, i) & ENCRYPTED_FLAG != 0,
    });
    assert(archive_entries(d) =~= entries_between(d, 0, i) + seq![entry_at(d, i)]
        + entries_from(d, name_end_at(d, i) + extra_len_at(d, i)));
}

/// A scan from `i` reads only the bytes from `i` on.
proof fn lemma_scan_reads_from(d1: Seq<u8>, d2: Seq<u8>, i: int)
    requires
        d1.len() == d2.len(),
        forall|j: int| i <= j < d1.len() ==> d1[j] == d2[j],
    ensures
        entries_from(d1, i) == entries_from(d2, i),
    decreases d1.len() + 0x10000 - i,
{
    if 0 <= i && i + HEADER_LEN < d1.len() {
        if signature_at(d1, i) {
            if name_end_at(d1, i) <= d1.len() {
                lemma_scan_reads_from(d1, d2, name_end_at(d1, i) + extra_len_at(d1, i));
                assert(d1.subrange(i + HEADER_LEN, name_end_at(d1, i))
                    =~= d2.subrange(i + HEADER_LEN, name_end_at(d1, i)));
            }
        } else {
            lemma_scan_reads_from(d1, d2, i + 1);
        }
    }
}

proof fn lemma_flag_bits(lo: u8, hi: u8, x: u16)
    by (bit_vector)
    requires
        x == ((lo as u16) + (hi as u16) * 256) as u16,
    ensures
        (x & ENCRYPTED_FLAG != 0) == (lo & 1 != 0),
        (x & UTF8_NAME_FLAG != 0) == (hi & 8 != 0),
{
}

/// Replacing the low byte of the flag of a listed header by `b` sets that
/// entry's encryption from bit 0 of `b` and leaves its path and the entries
/// after it as they were.
proof fn lemma_flag_low_byte_from(d: Seq<u8>, i: int, b: u8)
    requires
        0 <= i,
        i + HEADER_LEN < d.len(),
        signature_at(d, i),
        name_end_at(d, i) <= d.len(),
    ensures
        ({
            let d2 = d.update(i + 6, b);
            &&& entries_from(d2, i).len() == entries_from(d, i).len()
            &&& entries_from(d2, i)[0].is_encrypted == (b & 1 != 0)
            &&& entries_from(d2, i)[0].path == entries_from(d, i)[0].path
            &&& entries_from(d2, i)[0].is_file == entries_from(d, i)[0].is_file
            &&& entries_from(d2, i).skip(1) == entries_from(d, i).skip(1)
        }),
{
    let d2 = d.update(i + 6, b);
    let next = name_end_at(d, i) + extra_len_at(d, i);
    lemma_scan_reads_from(d, d2, next);
    lemma_flag_bits(d[i + 6], d[i + 7], flag_at(d, i));
    lemma_flag_bits(b, d2[i + 7], flag_at(d2, i));
    assert(d.subrange(i + HEADER_LEN, name_end_at(d, i)) =~= d2.subrange(i + HEADER_LEN, name_end_at(d, i)));
    assert(entries_from(d, i) == seq![entry_at(d, i)] + entries_from(d, next));
    assert(entries_from(d2, i) == seq![entry_at(d2, i)] + entries_from(d2, next));
    assert(entries_from(d, i).skip(1) =~= entries_from(d, next));
    assert(entries_from(d2, i).skip(1) =~= entries_from(d2, next));
}

/// Only bit 0 of a header's flag decides whether its entry is encrypted: for a
/// header that the scan arrives at, replacing the flag's low byte by `b`
/// changes that header's entry alone, which keeps its path and is encrypted
/// exactly when bit 0 of `b` is set (so setting bit 0 makes it encrypted);
/// every entry before and after it stays as it was.
pub proof fn lemma_encryption_bit_is_local(d: Seq<u8>, i: int, b: u8)
    requires
        reaches(d, 0, i),
        i + HEADER_LEN < d.len(),
        signature_at(d, i),
        name_end_at(d, i) <= d.len(),
    ensures
        ({
            let d2 = d.update(i + 6, b);
            let k = entries_between(d, 0, i).len() as int;
            &&& k < archive_entries(d).len()
            &&& archive_entries(d2).len() == archive_entries(d).len()
            &&& archive_entries(d2)[k] == (EntrySpec {
                path: archive_entries(d)[k].path,
                is_file: archive_entries(d)[k].is_file,
                is_encrypted: b & 1 != 0,
            })
            &&& b == (d[i + 6] | 1) ==> archive_entries(d2)[k].is_encrypted
            &&& forall|j: int| 0 <= j < archive_entries(d).len() && j != k
                ==> #[trigger] archive_entries(d2)[j] == archive_entries(d)[j]
        }),
{
    let d2 = d.update(i + 6, b);
    let pre = entries_between(d, 0, i);
    lemma_scan_splits_at(d, 0, i);
    lemma_scan_up_to_reads_before(d, d2, 0, i);
    lemma_scan_splits_at(d2, 0, i);
    lemma_flag_low_byte_from(d, i, b);
    let x = d[i + 6];
    assert(b == (x | 1) ==> b & 1 != 0) by (bit_vector);
    let r1 = entries_from(d, i);
    let r2 = entries_from(d2, i);
    assert(archive_entries(d) == pre + r1);
    assert(archive_entries(d2) == pre + r2);
    assert forall|j: int| 0 <= j < archive_entries(d).len() && j != pre.len()
        implies #[trigger] archive_entries(d2)[j] == archive_entries(d)[j] by {
        if j > pre.len() {
            assert(r1[j - pre.len()] == r1.skip(1)[j - pre.len() - 1]);
            assert(r2[j - pre.len()] == r2.skip(1)[j - pre.len() - 1]);
        }
    }
}

} // verus!
