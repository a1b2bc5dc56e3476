use vstd::prelude::*;

use crate::escape::{
    decode_special_strings, encode_special_bytes, escape_bytes, unescape, ControlCharacterMode,
};
use vstd::string::StrSliceExecFns;

verus! {

/// Why a table buffer cannot be read, or a table cannot be written.
#[derive(Clone, Copy, Debug, PartialEq, Eq, Structural)]
pub enum TableError {
    /// Fewer than two bytes: no entry count.
    TooSmall,
    /// The offset table that the entry count announces runs past the end of the buffer.
    TruncatedOffsetTable { count: u16 },
    /// An entry starts at or past the end of the buffer.
    OffsetOutOfBounds { index: usize, offset: usize },
    /// An entry ends before it starts: the next entry's offset is lower than its own.
    OffsetsOutOfOrder { index: usize },
    /// Too many entries, or an entry that starts past what a 16-bit offset can hold.
    TooLarge,
}

/// The little-endian 16-bit number at position `i`.
pub open spec fn u16_at(b: Seq<u8>, i: int) -> nat {
    (b[i] + 256 * b[i + 1]) as nat
}

/// The entry count a buffer announces.
pub open spec fn entry_count(b: Seq<u8>) -> nat {
    u16_at(b, 0)
}

/// The length of the count field and the offset table.
pub open spec fn header_len(b: Seq<u8>) -> nat {
    2 + 2 * entry_count(b)
}

/// Whether the count field and the whole offset table are present.
pub open spec fn has_header(b: Seq<u8>) -> bool {
    b.len() >= 2 && b.len() >= header_len(b)
}

/// The offset of entry `i`.
pub open spec fn offset_at(b: Seq<u8>, i: int) -> nat {
    u16_at(b, 2 + 2 * i)
}

/// Where entry `i` ends: the next entry's offset, or the end of the buffer for the last.
pub open spec fn entry_end(b: Seq<u8>, i: int) -> nat {
    if i + 1 < entry_count(b) {
        offset_at(b, i + 1)
    } else {
        b.len()
    }
}

/// What is wrong with entry `i`, if anything.
pub open spec fn entry_fault(b: Seq<u8>, i: int) -> Option<TableError> {
    if offset_at(b, i) >= b.len() {
        Some(TableError::OffsetOutOfBounds { index: i as usize, offset: offset_at(b, i) as usize })
    } else if entry_end(b, i) < offset_at(b, i) {
        Some(TableError::OffsetsOutOfOrder { index: i as usize })
    } else {
        None
    }
}

/// Whether entries `0..n` are all well placed.
pub open spec fn entries_sound_up_to(b: Seq<u8>, n: int) -> bool {
    forall|i: int| 0 <= i < n ==> #[trigger] entry_fault(b, i) is None
}

/// Whether a buffer can be read as a table.
pub open spec fn is_readable_table(b: Seq<u8>) -> bool {
    has_header(b) && entries_sound_up_to(b, entry_count(b) as int)
}

/// The error reading a buffer gives: the first structural fault, in the order the buffer
/// is read (count, offset table, then each entry by index).
pub open spec fn read_error_matches(b: Seq<u8>, e: TableError) -> bool {
    if b.len() < 2 {
        e == TableError::TooSmall
    } else if b.len() < header_len(b) {
        e == TableError::TruncatedOffsetTable { count: entry_count(b) as u16 }
    } else {
        exists|i: int|
            0 <= i < entry_count(b) && entries_sound_up_to(b, i) && #[trigger] entry_fault(b, i)
                == Some(e)
    }
}

/// The bytes of entry `i`.
pub open spec fn entry_bytes(b: Seq<u8>, i: int) -> Seq<u8> {
    b.subrange(offset_at(b, i) as int, entry_end(b, i) as int)
}

/// The entries of a table, in index order.
pub open spec fn entries(b: Seq<u8>) -> Seq<Seq<u8>> {
    Seq::new(entry_count(b), |i: int| entry_bytes(b, i))
}

/// The indices a line selector picks from `n` entries: all of them, the one asked for, or
/// none when the index is out of range.
pub open spec fn selected(n: nat, line_number: Option<u16>) -> Seq<int> {
    match line_number {
        None => Seq::new(n, |i: int| i),
        Some(k) => if k < n {
            seq![k as int]
        } else {
            seq![]
        },
    }
}

/// The text lines of a readable table for a selector.
pub open spec fn table_lines(
    b: Seq<u8>,
    mode: ControlCharacterMode,
    line_number: Option<u16>,
) -> Seq<Seq<char>> {
    selected(entry_count(b), line_number).map_values(|i: int| escape_bytes(entry_bytes(b, i), mode))
}

pub(crate) fn read_u16(b: &[u8], i: usize) -> (r: usize)
    requires
        i + 1 < b@.len(),
    ensures
        r == u16_at(b@, i as int),
{
    b[i] as usize + 256 * (b[i + 1] as usize)
}

fn check_header(buffer: &[u8]) -> (r: Result<usize, TableError>)
    ensures
        match r {
            Ok(n) => has_header(buffer@) && n == entry_count(buffer@),
            Err(e) => !has_header(buffer@) && read_error_matches(buffer@, e),
        },
{
    if buffer.len() < 2 {
        return Err(TableError::TooSmall);
    }
    let n = read_u16(buffer, 0);
    if buffer.len() < 2 + n * 2 {
        return Err(TableError::TruncatedOffsetTable { count: n as u16 });
    }
    Ok(n)
}

/// Reads the offset table and checks every entry's extent: each starts inside the buffer
/// and ends no earlier than it starts.
pub fn read_offsets(buffer: &[u8]) -> (r: Result<Vec<usize>, TableError>)
    ensures
        match r {
            Ok(offsets) => is_readable_table(buffer@) && offsets@.len() == entry_count(buffer@)
                && forall|i: int|
                0 <= i < offsets@.len() ==> #[trigger] offsets@[i] == offset_at(buffer@, i),
            Err(e) => !is_readable_table(buffer@) && read_error_matches(buffer@, e),
        },
{
    let n = match check_header(buffer) {
        Ok(n) => n,
        Err(e) => return Err(e),
    };
    let mut offsets: Vec<usize> = Vec::new();
    let mut i: usize = 0;
    while i < n
        invariant
            n == entry_count(buffer@),
            has_header(buffer@),
            i <= n,
            offsets@.len() == i,
            forall|j: int| 0 <= j < i ==> #[trigger] offsets@[j] == offset_at(buffer@, j),
        decreases n - i,
    {
        offsets.push(read_u16(buffer, 2 + i * 2));
        i = i + 1;
    }
    let mut i: usize = 0;
    while i < n
        invariant
            n == entry_count(buffer@),
            has_header(buffer@),
            i <= n,
            offsets@.len() == n,
            forall|j: int| 0 <= j < n ==> #[trigger] offsets@[j] == offset_at(buffer@, j),
            entries_sound_up_to(buffer@, i as int),
        decreases n - i,
    {
        let start = offsets[i];
        let end = if i + 1 < n {
            offsets[i + 1]
        } else {
            buffer.len()
        };
        if start >= buffer.len() {
            assert(entry_fault(buffer@, i as int) is Some);
            return Err(TableError::OffsetOutOfBounds { index: i, offset: start });
        }
        if end < start {
            assert(entry_fault(buffer@, i as int) is Some);
            return Err(TableError::OffsetsOutOfOrder { index: i });
        }
        assert(entry_fault(buffer@, i as int) is None);
        i = i + 1;
    }
    Ok(offsets)
}

/// Reads a table buffer as text lines, one per selected entry: all entries, or only the one
/// `line_number` names (none if it names no entry). Fails, before any line is made, on the
/// first structural fault of the buffer.
pub fn table_to_text(
    buffer: &[u8],
    control_character_mode: &ControlCharacterMode,
    line_number: Option<u16>,
) -> (r: Result<Vec<String>, TableError>)
    ensures
        match r {
            Ok(lines) => is_readable_table(buffer@) && lines.deep_view() == table_lines(
                buffer@,
                *control_character_mode,
                line_number,
            ),
            Err(e) => !is_readable_table(buffer@) && read_error_matches(buffer@, e),
        },
        buffer@.len() >= 2 && buffer@.len() < header_len(buffer@) ==> r == Err::<
            Vec<String>,
            TableError,
        >(TableError::TruncatedOffsetTable { count: entry_count(buffer@) as u16 }),
        line_number matches Some(k) && k >= entry_count(buffer@) && is_readable_table(buffer@)
            ==> (r matches Ok(lines) && lines@.len() == 0),
{
    let offsets = match read_offsets(buffer) {
        Ok(o) => o,
        Err(e) => return Err(e),
    };
    let n = offsets.len();
    match line_number {
        Some(k) => {
            let mut lines: Vec<String> = Vec::new();
            if (k as usize) < n {
                lines.push(entry_text(buffer, &offsets, k as usize, control_character_mode));
            }
            assert(lines.deep_view() =~= table_lines(
                buffer@,
                *control_character_mode,
                line_number,
            ));
            Ok(lines)
        },
        None => {
            let mut lines: Vec<String> = Vec::new();
            let mut i: usize = 0;
            while i < n
                invariant
                    n == entry_count(buffer@),
                    is_readable_table(buffer@),
                    i <= n,
                    offsets@.len() == n,
                    forall|j: int| 0 <= j < n ==> #[trigger] offsets@[j] == offset_at(buffer@, j),
                    lines.deep_view() =~= Seq::new(
                        i as nat,
                        |j: int| escape_bytes(entry_bytes(buffer@, j), *control_character_mode),
                    ),
                decreases n - i,
            {
                let ghost before = lines.deep_view();
                let text = entry_text(buffer, &offsets, i, control_character_mode);
                lines.push(text);
                assert(lines.deep_view() =~= before.push(text@));
                i = i + 1;
            }
            assert(lines.deep_view() =~= table_lines(
                buffer@,
                *control_character_mode,
                line_number,
            ));
            Ok(lines)
        },
    }
}

fn entry_text(
    buffer: &[u8],
    offsets: &Vec<usize>,
    i: usize,
    control_character_mode: &ControlCharacterMode,
) -> (r: String)
    requires
        is_readable_table(buffer@),
        offsets@.len() == entry_count(buffer@),
        forall|j: int| 0 <= j < offsets@.len() ==> #[trigger] offsets@[j] == offset_at(buffer@, j),
        i < offsets@.len(),
    ensures
        r@ == escape_bytes(entry_bytes(buffer@, i as int), *control_character_mode),
{
    let start = offsets[i];
    let end = if i + 1 < offsets.len() {
        offsets[i + 1]
    } else {
        buffer.len()
    };
    assert(entry_fault(buffer@, i as int) is None);
    if i + 1 < offsets.len() {
        assert(entry_fault(buffer@, i + 1) is None);
    }
    encode_special_bytes(&buffer[start..end], control_character_mode)
}

/// The entries' bytes, one after the other.
pub open spec fn concat_entries(es: Seq<Seq<u8>>) -> Seq<u8>
    decreases es.len(),
{
    if es.len() == 0 {
        seq![]
    } else {
        concat_entries(es.drop_last()) + es.last()
    }
}

/// How many data bytes come before entry `i`.
pub open spec fn data_before(es: Seq<Seq<u8>>, i: int) -> nat {
    concat_entries(es.take(i)).len()
}

/// The offset the encoder gives entry `i`: past the header and all earlier entries.
pub open spec fn planned_offset(es: Seq<Seq<u8>>, i: int) -> nat {
    2 + 2 * es.len() + data_before(es, i)
}

/// Whether the entry count and every entry's offset fit in 16 bits.
pub open spec fn table_fits(es: Seq<Seq<u8>>) -> bool {
    es.len() <= 0xFFFF && forall|i: int| 0 <= i < es.len() ==> #[trigger] planned_offset(es, i) <= 0xFFFF
}

/// Whether `b` is the table of the entries `es`: the count, the offsets in entry order,
/// then the entries' bytes, with nothing added.
pub open spec fn is_table_of(b: Seq<u8>, es: Seq<Seq<u8>>) -> bool {
    &&& b.len() == 2 + 2 * es.len() + concat_entries(es).len()
    &&& u16_at(b, 0) == es.len()
    &&& forall|i: int| 0 <= i < es.len() ==> #[trigger] u16_at(b, 2 + 2 * i) == planned_offset(es, i)
    &&& b.skip(2 + 2 * es.len() as int) == concat_entries(es)
}

proof fn lemma_data_before_step(es: Seq<Seq<u8>>, i: int)
    requires
        0 <= i < es.len(),
    ensures
        data_before(es, i + 1) == data_before(es, i) + es[i].len(),
        concat_entries(es.take(i + 1)) == concat_entries(es.take(i)) + es[i],
{
    assert(es.take(i + 1).drop_last() =~= es.take(i));
}

fn append_bytes(out: &mut Vec<u8>, src: &Vec<u8>)
    ensures
        final(out)@ == old(out)@ + src@,
{
    let mut i: usize = 0;
    while i < src.len()
        invariant
            i <= src.len(),
            out@ == old(out)@ + src@.take(i as int),
        decreases src.len() - i,
    {
        out.push(src[i]);
        i = i + 1;
        assert(out@ =~= old(out)@ + src@.take(i as int));
    }
    assert(src@.take(i as int) =~= src@);
}

fn push_u16(out: &mut Vec<u8>, v: usize)
    requires
        v <= 0xFFFF,
    ensures
        final(out)@.len() == old(out)@.len() + 2,
        final(out)@.take(old(out)@.len() as int) == old(out)@,
        u16_at(final(out)@, old(out)@.len() as int) == v,
{
    out.push((v % 256) as u8);
    out.push((v / 256) as u8);
    assert(final(out)@.take(old(out)@.len() as int) =~= old(out)@);
}

/// Writes entries as a table: the count, each entry's offset in order, then the entries'
/// bytes. Fails when the count or an offset does not fit in 16 bits.
pub fn encode_table(entries: &Vec<Vec<u8>>) -> (r: Result<Vec<u8>, TableError>)
    ensures
        match r {
            Ok(b) => table_fits(entries.deep_view()) && is_table_of(b@, entries.deep_view()),
            Err(e) => !table_fits(entries.deep_view()) && e == TableError::TooLarge,
        },
{
    let ghost es = entries.deep_view();
    let n = entries.len();
    if n > 0xFFFF {
        return Err(TableError::TooLarge);
    }
    let mut out: Vec<u8> = Vec::new();
    push_u16(&mut out, n);
    let mut cur: usize = 2 + 2 * n;
    let mut i: usize = 0;
    assert(es.take(0) =~= Seq::<Seq<u8>>::empty());
    while i < n
        invariant
            n == entries.len(),
            es == entries.deep_view(),
            n <= 0xFFFF,
            i <= n,
            out@.len() == 2 + 2 * i,
            u16_at(out@, 0) == n,
            forall|j: int| 0 <= j < i ==> #[trigger] u16_at(out@, 2 + 2 * j) == planned_offset(es, j),
            forall|j: int| 0 <= j < i ==> #[trigger] planned_offset(es, j) <= 0xFFFF,
            i < n ==> cur == planned_offset(es, i as int),
        decreases n - i,
    {
        if cur > 0xFFFF {
            return Err(TableError::TooLarge);
        }
        let ghost before = out@;
        push_u16(&mut out, cur);
        assert forall|j: int| 0 <= j < i implies #[trigger] u16_at(out@, 2 + 2 * j) == planned_offset(es, j) by {
            assert(u16_at(before, 2 + 2 * j) == planned_offset(es, j));
            assert(out@[2 + 2 * j] == before[2 + 2 * j]);
            assert(out@[2 + 2 * j + 1] == before[2 + 2 * j + 1]);
        }
        proof {
            lemma_data_before_step(es, i as int);
        }
        if i + 1 < n {
            let len = entries[i].len();
            if len > 0xFFFF {
                assert(planned_offset(es, i + 1) > 0xFFFF);
                return Err(TableError::TooLarge);
            }
            cur = cur + len;
        }
        i = i + 1;
    }
    let ghost header = out@;
    assert(forall|j: int| 0 <= j < n ==> #[trigger] u16_at(header, 2 + 2 * j) == planned_offset(es, j));
    let mut i: usize = 0;
    while i < n
        invariant
            n == entries.len(),
            es == entries.deep_view(),
            i <= n,
            header.len() == 2 + 2 * n,
            out@ == header + concat_entries(es.take(i as int)),
        decreases n - i,
    {
        append_bytes(&mut out, &entries[i]);
        proof {
            lemma_data_before_step(es, i as int);
        }
        assert(out@ =~= header + concat_entries(es.take(i + 1)));
        i = i + 1;
    }
    assert(es.take(n as int) =~= es);
    assert forall|j: int| 0 <= j < n implies #[trigger] u16_at(out@, 2 + 2 * j) == planned_offset(es, j) by {
        assert(u16_at(header, 2 + 2 * j) == planned_offset(es, j));
        assert(out@[2 + 2 * j] == header[2 + 2 * j]);
        assert(out@[2 + 2 * j + 1] == header[2 + 2 * j + 1]);
    }
    assert(out@.skip(2 + 2 * n as int) =~= concat_entries(es));
    Ok(out)
}

/// Whether a text line ends with the escape of a null byte, `<0>`.
pub open spec fn ends_with_nul_escape(l: Seq<char>) -> bool {
    l.len() >= 3 && l.subrange(l.len() - 3, l.len() as int) == seq!['<', '0', '>']
}

/// The 1-based numbers of the lines that do not end with `<0>`, ascending.
pub open spec fn unterminated_lines(ls: Seq<Seq<char>>) -> Seq<int>
    decreases ls.len(),
{
    if ls.len() == 0 {
        seq![]
    } else if ends_with_nul_escape(ls.last()) {
        unterminated_lines(ls.drop_last())
    } else {
        unterminated_lines(ls.drop_last()).push(ls.len() as int)
    }
}

/// The entries that text lines stand for.
pub open spec fn line_entries(ls: Seq<Seq<char>>, mode: ControlCharacterMode) -> Seq<Seq<u8>> {
    ls.map_values(|l: Seq<char>| unescape(l, mode))
}

/// A table made from text lines, with the numbers of the lines that lack the `<0>` ending.
pub struct EncodedTable {
    pub bytes: Vec<u8>,
    pub unterminated: Vec<usize>,
}

fn ends_with_nul_escape_exec(s: &String) -> (r: bool)
    ensures
        r == ends_with_nul_escape(s@),
{
    let t = s.as_str();
    let n = t.unicode_len();
    if n < 3 {
        return false;
    }
    let r = t.get_char(n - 3) == '<' && t.get_char(n - 2) == '0' && t.get_char(n - 1) == '>';
    let ghost tail = s@.subrange(n - 3, n as int);
    assert(r == (tail =~= seq!['<', '0', '>']));
    r
}

/// Writes text lines as a table: each line is decoded with the escape radix and becomes one
/// entry, with no byte added. Also lists, ascending and 1-based, the lines that do not end
/// with `<0>`. Fails when the count or an offset does not fit in 16 bits.
pub fn text_to_table(lines: &Vec<String>, control_character_mode: &ControlCharacterMode) -> (r:
    Result<EncodedTable, TableError>)
    ensures
        ({
            let es = line_entries(lines.deep_view(), *control_character_mode);
            match r {
                Ok(t) => table_fits(es) && is_table_of(t.bytes@, es) && t.unterminated@.map_values(
                    |k: usize| k as int,
                ) == unterminated_lines(lines.deep_view()),
                Err(e) => !table_fits(es) && e == TableError::TooLarge,
            }
        }),
{
    let ghost ls = lines.deep_view();
    let mut entries: Vec<Vec<u8>> = Vec::new();
    let mut unterminated: Vec<usize> = Vec::new();
    let mut i: usize = 0;
    while i < lines.len()
        invariant
            ls == lines.deep_view(),
            i <= lines.len(),
            entries.deep_view() =~= line_entries(ls.take(i as int), *control_character_mode),
            unterminated@.map_values(|k: usize| k as int) =~= unterminated_lines(ls.take(i as int)),
        decreases lines.len() - i,
    {
        let ghost prev_u = unterminated@;
        if !ends_with_nul_escape_exec(&lines[i]) {
            unterminated.push(i + 1);
        }
        let bytes = decode_special_strings(lines[i].as_str(), control_character_mode);
        let ghost prev_e = entries.deep_view();
        let ghost bv = bytes.deep_view();
        assert(bv =~= bytes@);
        entries.push(bytes);
        assert(ls.take(i + 1).drop_last() =~= ls.take(i as int));
        assert(entries.deep_view() =~= prev_e.push(bv));
        assert(unterminated@.map_values(|k: usize| k as int) =~= unterminated_lines(ls.take(i + 1)));
        i = i + 1;
    }
    assert(ls.take(i as int) =~= ls);
    match encode_table(&entries) {
        Ok(bytes) => Ok(EncodedTable { bytes, unterminated }),
        Err(e) => Err(e),
    }
}

proof fn lemma_concat_prefix(es: Seq<Seq<u8>>, j: int)
    requires
        0 <= j <= es.len(),
    ensures
        data_before(es, j) <= concat_entries(es).len(),
        concat_entries(es).take(data_before(es, j) as int) == concat_entries(es.take(j)),
    decreases es.len(),
{
    if j == es.len() {
        assert(es.take(j) =~= es);
        assert(concat_entries(es).take(data_before(es, j) as int) =~= concat_entries(es));
    } else {
        let dl = es.drop_last();
        assert(es.take(j) =~= dl.take(j));
        lemma_concat_prefix(dl, j);
        assert(concat_entries(es) == concat_entries(dl) + es.last());
        assert(concat_entries(es).take(data_before(es, j) as int) =~= concat_entries(
            dl,
        ).take(data_before(dl, j) as int));
    }
}

proof fn lemma_data_before_monotone(es: Seq<Seq<u8>>, i: int, j: int)
    requires
        0 <= i <= j <= es.len(),
    ensures
        data_before(es, i) <= data_before(es, j),
{
    lemma_concat_prefix(es.take(j), i);
    assert(es.take(j).take(i) =~= es.take(i));
    assert(es.take(j).take(j) =~= es.take(j));
}

/// Entry `i` of a table sits between its planned offset and the next one.
proof fn lemma_entry_in_concat(es: Seq<Seq<u8>>, i: int)
    requires
        0 <= i < es.len(),
    ensures
        data_before(es, i + 1) == data_before(es, i) + es[i].len(),
        data_before(es, i + 1) <= concat_entries(es).len(),
        concat_entries(es).subrange(data_before(es, i) as int, data_before(es, i + 1) as int)
            == es[i],
{
    lemma_data_before_step(es, i);
    lemma_concat_prefix(es, i + 1);
    let c = concat_entries(es);
    let x = data_before(es, i) as int;
    let y = data_before(es, i + 1) as int;
    assert(c.subrange(x, y) =~= c.take(y).subrange(x, y));
    assert(concat_entries(es.take(i + 1)).subrange(x, y) =~= es[i]);
}

/// Lines that are each the escaped form of their own bytes and end with `<0>`, written as a
/// table, read back from it as exactly the same lines.
pub proof fn lemma_text_table_round_trip(
    ls: Seq<Seq<char>>,
    b: Seq<u8>,
    mode: ControlCharacterMode,
)
    requires
        forall|i: int| 0 <= i < ls.len() ==> escape_bytes(unescape(#[trigger] ls[i], mode), mode) == ls[i],
        forall|i: int| 0 <= i < ls.len() ==> ends_with_nul_escape(#[trigger] ls[i]),
        is_table_of(b, line_entries(ls, mode)),
    ensures
        is_readable_table(b),
        table_lines(b, mode, None) == ls,
{
    let es = line_entries(ls, mode);
    let n = es.len() as int;
    let h = 2 + 2 * n;
    let c = concat_entries(es);
    assert(entry_count(b) == n);
    assert forall|i: int| 0 <= i < n implies #[trigger] es[i].len() > 0 by {
        if es[i].len() == 0 {
            assert(escape_bytes(es[i], mode) =~= Seq::<char>::empty());
            assert(ls[i].len() >= 3);
        }
    }
    assert forall|i: int| 0 <= i < n implies entry_end(b, i) == h + data_before(es, i + 1)
        && offset_at(b, i) == h + data_before(es, i) by {
        assert(u16_at(b, 2 + 2 * i) == planned_offset(es, i));
        if i + 1 < n {
            assert(u16_at(b, 2 + 2 * (i + 1)) == planned_offset(es, i + 1));
        } else {
            assert(es.take(n) =~= es);
        }
    }
    assert forall|i: int| 0 <= i < n implies #[trigger] entry_fault(b, i) is None
        && entry_bytes(b, i) == es[i] by {
        lemma_entry_in_concat(es, i);
        lemma_data_before_monotone(es, i + 1, n);
        assert(es.take(n) =~= es);
        assert(entry_bytes(b, i) =~= b.skip(h).subrange(
            data_before(es, i) as int,
            data_before(es, i + 1) as int,
        ));
    }
    let sel = selected(entry_count(b), None);
    assert forall|i: int| 0 <= i < n implies #[trigger] table_lines(b, mode, None)[i] == ls[i] by {
        assert(sel[i] == i);
        assert(entry_fault(b, i) is None);
        assert(es[i] == unescape(ls[i], mode));
    }
    assert(table_lines(b, mode, None) =~= ls);
}

} // verus!
