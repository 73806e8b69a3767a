//! The text that lists a directory, written by the server and read by the
//! client.
//!
//! One line per entry, each ended by a newline, in the order the filesystem
//! gave the entries:
//!
//! ```text
//! <identifier>:<size>:<name>      a file
//! <identifier>:0:<name>/          a directory
//! ```
//!
//! Numbers are decimal. A reader takes a row only if it has exactly three
//! fields and the first two are numbers that fit 32 bits.

use crate::bytes::{bytes_eq, push_bytes};
use crate::tree::{last_index_of, ResourceTree};
use vstd::prelude::*;
use vstd::slice::slice_subrange;
use vstd::utf8::{
    encode_utf8, encode_utf8_valid_utf8, pop_first_scalar, valid_utf8, valid_utf8_concat,
};

verus! {

/// Separates the fields of a row.
pub const COLON: u8 = 58;

/// Ends a row.
pub const NEWLINE: u8 = 10;

/// May stand before the newline that ends a row.
pub const CARRIAGE_RETURN: u8 = 13;

/// Ends the name of a directory, and each but the last segment of a path.
pub const SLASH: u8 = 47;

/// The digit zero.
pub const ZERO: u8 = 48;

/// May stand before the digits of a number.
pub const PLUS: u8 = 43;

/// What the filesystem says of an entry.
#[derive(Debug, Clone, Copy, PartialEq, Eq)]
pub struct EntryMeta {
    pub is_dir: bool,
    pub len: u64,
}

/// An entry of a directory as it was read: its path, its name where the
/// name is valid text, and its metadata where that could be read.
#[derive(Debug, Clone, PartialEq, Eq)]
pub struct DirEntry {
    pub path: Vec<u8>,
    pub name: Option<String>,
    pub meta: Option<EntryMeta>,
}

/// What a [`DirEntry`] holds, the name as its bytes.
pub struct DirEntryView {
    pub path: Seq<u8>,
    pub name: Option<Seq<u8>>,
    pub meta: Option<EntryMeta>,
}

impl View for DirEntry {
    type V = DirEntryView;

    open spec fn view(&self) -> DirEntryView {
        DirEntryView {
            path: self.path@,
            name: match self.name {
                Some(name) => Some(encode_utf8(name@)),
                None => None,
            },
            meta: self.meta,
        }
    }
}

/// The decimal digits of `n`, without leading zeros.
pub open spec fn decimal(n: nat) -> Seq<u8>
    decreases n,
{
    if n < 10 {
        seq![(ZERO + n) as u8]
    } else {
        decimal(n / 10).push((ZERO + n % 10) as u8)
    }
}

/// The three fields of a row, with a colon between them.
pub open spec fn row_text(id: nat, size: nat, name: Seq<u8>) -> Seq<u8> {
    decimal(id) + seq![COLON] + decimal(size) + seq![COLON] + name
}

/// The line for an entry with identifier `id`, size `size` and name `name`:
/// its row and a newline.
pub open spec fn listing_line(id: nat, size: nat, name: Seq<u8>) -> Seq<u8> {
    row_text(id, size, name).push(NEWLINE)
}

/// What is listed of an entry.
pub struct Listed {
    pub id: nat,
    pub size: nat,
    pub name: Seq<u8>,
}

/// What is listed of `entry`, or nothing where the entry is left out: one
/// whose path has no identifier in `paths`, whose metadata could not be
/// read, or whose name is not valid text. A directory is listed with size 0
/// and a slash after its name.
pub open spec fn listed(entry: DirEntryView, paths: Seq<Seq<u8>>) -> Option<Listed> {
    match (last_index_of(paths, entry.path), entry.meta, entry.name) {
        (Some(id), Some(meta), Some(name)) => Some(
            if meta.is_dir {
                Listed { id, size: 0, name: name.push(SLASH) }
            } else {
                Listed { id, size: meta.len as nat, name }
            },
        ),
        _ => None,
    }
}

/// The line for `entry`, or nothing where the entry is left out.
pub open spec fn entry_line(entry: DirEntryView, paths: Seq<Seq<u8>>) -> Seq<u8> {
    match listed(entry, paths) {
        Some(row) => listing_line(row.id, row.size, row.name),
        None => Seq::empty(),
    }
}

/// The listing of a directory with the entries `entries`.
pub open spec fn listing(entries: Seq<DirEntry>, paths: Seq<Seq<u8>>) -> Seq<u8>
    decreases entries.len(),
{
    if entries.len() == 0 {
        Seq::empty()
    } else {
        listing(entries.drop_last(), paths) + entry_line(entries.last()@, paths)
    }
}

/// Appends the decimal digits of `n` to `buf`.
pub fn push_decimal(buf: &mut Vec<u8>, n: u64)
    ensures
        final(buf)@ == old(buf)@ + decimal(n as nat),
    decreases n,
{
    if n >= 10 {
        push_decimal(buf, n / 10);
    }
    buf.push(ZERO + (n % 10) as u8);
    assert(buf@ =~= old(buf)@ + decimal(n as nat));
}

/// Appends the row for an entry to `buf`.
fn push_line(buf: &mut Vec<u8>, id: usize, size: u64, name: &[u8], is_dir: bool)
    ensures
        final(buf)@ == old(buf)@ + listing_line(
            id as nat,
            size as nat,
            if is_dir {
                name@.push(SLASH)
            } else {
                name@
            },
        ),
{
    push_decimal(buf, id as u64);
    buf.push(COLON);
    push_decimal(buf, size);
    buf.push(COLON);
    push_bytes(buf, name);
    if is_dir {
        buf.push(SLASH);
    }
    buf.push(NEWLINE);
    assert(buf@ =~= old(buf)@ + listing_line(
        id as nat,
        size as nat,
        if is_dir {
            name@.push(SLASH)
        } else {
            name@
        },
    ));
}

/// Writes the listing of a directory from its entries, looking up the
/// identifier of each in `tree`.
pub fn ls(entries: &[DirEntry], tree: &ResourceTree) -> (text: Vec<u8>)
    ensures
        text@ == listing(entries@, tree@),
{
    let mut text: Vec<u8> = Vec::new();
    let n = entries.len();
    let mut i: usize = 0;
    while i < n
        invariant
            i <= n,
            n == entries@.len(),
            text@ == listing(entries@.take(i as int), tree@),
        decreases n - i,
    {
        let entry = &entries[i];
        proof {
            assert(entries@.take(i + 1).drop_last() =~= entries@.take(i as int));
        }
        let found = tree.index_of(entry.path.as_slice());
        match (found, &entry.meta, &entry.name) {
            (Some(id), Some(meta), Some(name)) => {
                let size = if meta.is_dir {
                    0
                } else {
                    meta.len
                };
                push_line(&mut text, id, size, name.as_str().as_bytes(), meta.is_dir);
            },
            _ => {},
        }
        assert(text@ =~= listing(entries@.take(i + 1), tree@));
        i = i + 1;
    }
    assert(entries@.take(n as int) =~= entries@);
    text
}

/// Index of the first `b` in `s`, or the length of `s` where it holds none.
pub open spec fn first_index(s: Seq<u8>, b: u8) -> int
    decreases s.len(),
{
    if s.len() == 0 || s[0] == b {
        0
    } else {
        1 + first_index(s.skip(1), b)
    }
}

/// Length of the first piece of `s`: up to and including the first `sep`,
/// or all of `s` where it holds none.
pub open spec fn piece_len(s: Seq<u8>, sep: u8) -> int {
    let i = first_index(s, sep);
    if 0 <= i < s.len() {
        i + 1
    } else {
        s.len() as int
    }
}

/// Whether every byte of `s` is a decimal digit.
pub open spec fn all_digits(s: Seq<u8>) -> bool {
    forall|i: int| 0 <= i < s.len() ==> ZERO <= #[trigger] s[i] <= ZERO + 9
}

/// The number that the digits `s` write.
pub open spec fn digits_value(s: Seq<u8>) -> int
    decreases s.len(),
{
    if s.len() == 0 {
        0
    } else {
        digits_value(s.drop_last()) * 10 + (s.last() - ZERO)
    }
}

/// The number that the field `s` writes: one or more decimal digits, which
/// a plus sign may precede, with a value that fits 32 bits.
pub open spec fn parse_number(s: Seq<u8>) -> Option<u32> {
    let digits = if s.len() > 0 && s[0] == PLUS {
        s.skip(1)
    } else {
        s
    };
    if digits.len() > 0 && all_digits(digits) && digits_value(digits) <= u32::MAX {
        Some(digits_value(digits) as u32)
    } else {
        None
    }
}

/// A row of a listing.
#[derive(Debug, Clone, PartialEq, Eq)]
pub struct Row {
    pub id: u32,
    pub size: u32,
    pub name: Vec<u8>,
}

/// What a [`Row`] holds.
pub struct RowView {
    pub id: u32,
    pub size: u32,
    pub name: Seq<u8>,
}

impl View for Row {
    type V = RowView;

    open spec fn view(&self) -> RowView {
        RowView { id: self.id, size: self.size, name: self.name@ }
    }
}

/// The row that `row` writes: exactly three fields with a colon between
/// them, the first two of them numbers.
pub open spec fn parse_row(row: Seq<u8>) -> Option<RowView> {
    let c1 = first_index(row, COLON);
    if !(0 <= c1 < row.len()) {
        None
    } else {
        let rest = row.skip(c1 + 1);
        let c2 = first_index(rest, COLON);
        if !(0 <= c2 < rest.len()) {
            None
        } else {
            let name = rest.skip(c2 + 1);
            if first_index(name, COLON) != name.len() {
                None
            } else {
                match (parse_number(row.take(c1)), parse_number(rest.take(c2))) {
                    (Some(id), Some(size)) => Some(RowView { id, size, name }),
                    _ => None,
                }
            }
        }
    }
}

/// A line without what ends it: a newline, and a carriage return before
/// that newline.
pub open spec fn trim_line(piece: Seq<u8>) -> Seq<u8> {
    if piece.len() > 0 && piece.last() == NEWLINE {
        let line = piece.drop_last();
        if line.len() > 0 && line.last() == CARRIAGE_RETURN {
            line.drop_last()
        } else {
            line
        }
    } else {
        piece
    }
}

/// Whether `row` is a row for the name `name`.
pub open spec fn row_names(row: Seq<u8>, name: Seq<u8>) -> bool {
    match parse_row(row) {
        Some(r) => r.name == name,
        None => false,
    }
}

/// The identifier in the first row of `text` whose name is `name`. Lines
/// that are no rows are passed over.
pub open spec fn find_entry(text: Seq<u8>, name: Seq<u8>) -> Option<u32>
    decreases text.len(),
{
    if text.len() == 0 {
        None
    } else {
        let k = piece_len(text, NEWLINE);
        let row = trim_line(text.take(k));
        if row_names(row, name) {
            Some(parse_row(row).unwrap().id)
        } else {
            find_entry(text.skip(k), name)
        }
    }
}

/// Where the first `b` stands: nothing before it is `b`.
pub proof fn lemma_first_index(s: Seq<u8>, b: u8)
    ensures
        0 <= first_index(s, b) <= s.len(),
        forall|j: int| 0 <= j < first_index(s, b) ==> s[j] != b,
        first_index(s, b) < s.len() ==> s[first_index(s, b)] == b,
    decreases s.len(),
{
    if s.len() > 0 && s[0] != b {
        let rest = s.skip(1);
        lemma_first_index(rest, b);
        assert(forall|j: int| 0 <= j < rest.len() ==> rest[j] == s[j + 1]);
        assert forall|j: int| 0 <= j < first_index(s, b) implies s[j] != b by {
            if j > 0 {
                assert(rest[j - 1] == s[j]);
            }
        }
    }
}

/// An index with nothing equal to `b` before it, which holds `b` or is the
/// length, is the first index of `b`.
pub proof fn lemma_first_index_is(s: Seq<u8>, b: u8, i: int)
    requires
        0 <= i <= s.len(),
        forall|j: int| 0 <= j < i ==> s[j] != b,
        i < s.len() ==> s[i] == b,
    ensures
        first_index(s, b) == i,
    decreases s.len(),
{
    if s.len() > 0 && s[0] != b {
        let rest = s.skip(1);
        assert forall|j: int| 0 <= j < i - 1 implies rest[j] != b by {
            assert(rest[j] == s[j + 1]);
        }
        lemma_first_index_is(rest, b, i - 1);
    }
}

/// Finds the first `b` in `data` at or after `from`; gives the length of
/// `data` where there is none.
pub fn find_byte(data: &[u8], from: usize, b: u8) -> (at: usize)
    requires
        from <= data@.len(),
    ensures
        from <= at <= data@.len(),
        at - from == first_index(data@.skip(from as int), b),
{
    let n = data.len();
    let mut i: usize = from;
    while i < n && data[i] != b
        invariant
            from <= i <= n,
            n == data@.len(),
            forall|j: int| from <= j < i ==> data@[j] != b,
        decreases n - i,
    {
        i = i + 1;
    }
    proof {
        lemma_first_index_is(data@.skip(from as int), b, i - from);
    }
    i
}

/// The digits read so far are worth no more than all of them.
proof fn lemma_digits_value_grows(s: Seq<u8>, i: int)
    requires
        0 <= i <= s.len(),
        all_digits(s),
    ensures
        0 <= digits_value(s.take(i)) <= digits_value(s),
    decreases s.len() - i,
{
    if i == s.len() {
        assert(s.take(i) =~= s);
        lemma_digits_value_nonnegative(s);
    } else {
        lemma_digits_value_grows(s, i + 1);
        assert(s.take(i + 1).drop_last() =~= s.take(i));
        lemma_digits_value_nonnegative(s.take(i));
        assert(ZERO <= s[i]);
    }
}

/// Digits write a number that is not negative.
proof fn lemma_digits_value_nonnegative(s: Seq<u8>)
    requires
        all_digits(s),
    ensures
        0 <= digits_value(s),
    decreases s.len(),
{
    if s.len() > 0 {
        lemma_digits_value_nonnegative(s.drop_last());
        assert(ZERO <= s[s.len() - 1]);
    }
}

/// Reads a number from a field.
pub fn read_number(field: &[u8]) -> (number: Option<u32>)
    ensures
        number == parse_number(field@),
{
    let n = field.len();
    let start: usize = if n > 0 && field[0] == PLUS {
        1
    } else {
        0
    };
    if start == n {
        return None;
    }
    let ghost digits = field@.skip(start as int);
    let mut value: u64 = 0;
    let mut i: usize = start;
    assert(digits.take(0) =~= Seq::<u8>::empty());
    while i < n
        invariant
            start <= i <= n,
            start < n,
            n == field@.len(),
            start == (if field@[0] == PLUS {
                1int
            } else {
                0int
            }),
            digits == field@.skip(start as int),
            all_digits(digits.take(i - start)),
            value == digits_value(digits.take(i - start)),
            value <= u32::MAX,
        decreases n - i,
    {
        let b = field[i];
        assert(digits[i - start] == b);
        assert(field@.skip(0) =~= field@);
        if b < ZERO || b > ZERO + 9 {
            return None;
        }
        let ghost read = digits.take(i + 1 - start);
        assert(read.drop_last() =~= digits.take(i - start));
        assert(all_digits(read)) by {
            assert forall|j: int| 0 <= j < read.len() implies ZERO <= #[trigger] read[j] <= ZERO
                + 9 by {
                if j < i - start {
                    assert(digits.take(i - start)[j] == read[j]);
                }
            }
        }
        value = value * 10 + (b - ZERO) as u64;
        if value > u32::MAX as u64 {
            proof {
                if all_digits(digits) {
                    lemma_digits_value_grows(digits, i + 1 - start);
                }
            }
            return None;
        }
        i = i + 1;
    }
    assert(digits.take(n - start) =~= digits);
    assert(field@.skip(0) =~= field@);
    Some(value as u32)
}

/// Reads a row of a listing.
pub fn read_row(row: &[u8]) -> (read: Option<Row>)
    ensures
        read is Some ==> parse_row(row@) == Some(read.unwrap()@),
        read is None ==> parse_row(row@) is None,
{
    let n = row.len();
    let c1 = find_byte(row, 0, COLON);
    assert(row@.skip(0) =~= row@);
    if c1 >= n {
        return None;
    }
    let c2 = find_byte(row, c1 + 1, COLON);
    if c2 >= n {
        return None;
    }
    let c3 = find_byte(row, c2 + 1, COLON);
    let ghost rest = row@.skip(c1 + 1);
    assert(rest.skip(c2 - c1) =~= row@.skip(c2 + 1));
    if c3 < n {
        return None;
    }
    let id = read_number(slice_subrange(row, 0, c1));
    let size = read_number(slice_subrange(row, c1 + 1, c2));
    assert(row@.subrange(0, c1 as int) =~= row@.take(c1 as int));
    assert(row@.subrange(c1 + 1, c2 as int) =~= rest.take(c2 - c1 - 1));
    match (id, size) {
        (Some(id), Some(size)) => {
            let mut name: Vec<u8> = Vec::new();
            push_bytes(&mut name, slice_subrange(row, c2 + 1, n));
            assert(name@ =~= row@.skip(c2 + 1));
            Some(Row { id, size, name })
        },
        _ => None,
    }
}

/// Looks `name` up in the listing `text`: gives the identifier in the first
/// row whose name is `name`.
pub fn lookup(text: &[u8], name: &[u8]) -> (id: Option<u32>)
    ensures
        id == find_entry(text@, name@),
{
    let n = text.len();
    let mut pos: usize = 0;
    assert(text@.skip(0) =~= text@);
    while pos < n
        invariant
            pos <= n,
            n == text@.len(),
            find_entry(text@, name@) == find_entry(text@.skip(pos as int), name@),
        decreases n - pos,
    {
        let ghost tail = text@.skip(pos as int);
        let newline = find_byte(text, pos, NEWLINE);
        proof {
            lemma_first_index(tail, NEWLINE);
        }
        let next = if newline < n {
            newline + 1
        } else {
            n
        };
        assert(next - pos == piece_len(tail, NEWLINE));
        let ghost piece = tail.take(next - pos);
        assert(piece =~= text@.subrange(pos as int, next as int));
        let mut end = next;
        if text[end - 1] == NEWLINE {
            end = end - 1;
            if end > pos && text[end - 1] == CARRIAGE_RETURN {
                end = end - 1;
            }
        }
        assert(text@.subrange(pos as int, end as int) =~= trim_line(piece));
        match read_row(slice_subrange(text, pos, end)) {
            Some(row) => {
                if bytes_eq(row.name.as_slice(), name) {
                    return Some(row.id);
                }
            },
            None => {},
        }
        assert(tail.skip(next - pos) =~= text@.skip(next as int));
        pos = next;
    }
    None
}

/// Whether `s` holds no `b`.
pub open spec fn free_of(s: Seq<u8>, b: u8) -> bool {
    forall|i: int| 0 <= i < s.len() ==> #[trigger] s[i] != b
}

/// Whether a name comes back from a listing as it went in: it holds no
/// colon and no newline, and does not end in a carriage return.
pub open spec fn plain(name: Seq<u8>) -> bool {
    &&& free_of(name, COLON)
    &&& free_of(name, NEWLINE)
    &&& name.len() > 0 ==> name.last() != CARRIAGE_RETURN
}

/// The decimal digits of a number are digits, and write that number.
pub proof fn lemma_decimal(n: nat)
    ensures
        decimal(n).len() >= 1,
        all_digits(decimal(n)),
        digits_value(decimal(n)) == n,
    decreases n,
{
    if n >= 10 {
        lemma_decimal(n / 10);
        let front = decimal(n / 10);
        let all = decimal(n);
        assert(all.drop_last() =~= front);
        assert forall|i: int| 0 <= i < all.len() implies ZERO <= #[trigger] all[i] <= ZERO + 9 by {
            if i < front.len() {
                assert(all[i] == front[i]);
            }
        }
        assert(all.last() - ZERO == n % 10);
    } else {
        assert(decimal(n).drop_last() =~= Seq::<u8>::empty());
        assert(digits_value(Seq::<u8>::empty()) == 0);
        assert(decimal(n).last() - ZERO == n);
    }
}

/// A number written in decimal is read back, if it fits 32 bits.
pub proof fn lemma_parse_decimal(n: nat)
    ensures
        n <= u32::MAX ==> parse_number(decimal(n)) == Some(n as u32),
        n > u32::MAX ==> parse_number(decimal(n)) is None,
{
    lemma_decimal(n);
    assert(ZERO <= decimal(n)[0] <= ZERO + 9);
}

/// Where `b` follows a part that is free of it, that is the first `b`.
proof fn lemma_first_index_after(head: Seq<u8>, b: u8, tail: Seq<u8>)
    requires
        free_of(head, b),
    ensures
        first_index(head.push(b) + tail, b) == head.len(),
        (head.push(b) + tail).take(head.len() as int) == head,
        (head.push(b) + tail).skip(head.len() as int + 1) == tail,
{
    let s = head.push(b) + tail;
    assert forall|j: int| 0 <= j < head.len() implies s[j] != b by {
        assert(s[j] == head[j]);
    }
    lemma_first_index_is(s, b, head.len() as int);
    assert(s.take(head.len() as int) =~= head);
    assert(s.skip(head.len() as int + 1) =~= tail);
}

/// A sequence free of `b` has no first `b`.
proof fn lemma_first_index_none(s: Seq<u8>, b: u8)
    requires
        free_of(s, b),
    ensures
        first_index(s, b) == s.len(),
{
    lemma_first_index_is(s, b, s.len() as int);
}

/// Digits hold neither a colon nor a newline.
proof fn lemma_digits_free(s: Seq<u8>)
    requires
        all_digits(s),
    ensures
        free_of(s, COLON),
        free_of(s, NEWLINE),
{
    assert forall|i: int| 0 <= i < s.len() implies #[trigger] s[i] != COLON && s[i]
        != NEWLINE by {
        assert(ZERO <= s[i] <= ZERO + 9);
    }
}

/// The row written for a plain name is read back with that name, and with
/// its numbers where they fit 32 bits; where they do not, it is no row.
pub proof fn lemma_parse_row_text(id: nat, size: nat, name: Seq<u8>)
    requires
        free_of(name, COLON),
    ensures
        id <= u32::MAX && size <= u32::MAX ==> parse_row(row_text(id, size, name)) == Some(
            RowView { id: id as u32, size: size as u32, name },
        ),
        id > u32::MAX || size > u32::MAX ==> parse_row(row_text(id, size, name)) is None,
{
    let d1 = decimal(id);
    let d2 = decimal(size);
    let row = row_text(id, size, name);
    lemma_decimal(id);
    lemma_decimal(size);
    lemma_digits_free(d1);
    lemma_digits_free(d2);
    lemma_parse_decimal(id);
    lemma_parse_decimal(size);
    let after = d2.push(COLON) + name;
    assert(row =~= d1.push(COLON) + after);
    lemma_first_index_after(d1, COLON, after);
    lemma_first_index_after(d2, COLON, name);
    lemma_first_index_none(name, COLON);
}

/// The line written for a plain name is one line: it ends at its newline,
/// and without what ends it, it is the row.
proof fn lemma_line_is_one_piece(id: nat, size: nat, name: Seq<u8>, rest: Seq<u8>)
    requires
        plain(name),
    ensures
        piece_len(listing_line(id, size, name) + rest, NEWLINE) == listing_line(
            id,
            size,
            name,
        ).len(),
        trim_line(listing_line(id, size, name)) == row_text(id, size, name),
{
    let d1 = decimal(id);
    let d2 = decimal(size);
    let row = row_text(id, size, name);
    lemma_decimal(id);
    lemma_decimal(size);
    lemma_digits_free(d1);
    lemma_digits_free(d2);
    assert forall|i: int| 0 <= i < row.len() implies #[trigger] row[i] != NEWLINE by {
        if i < d1.len() {
            assert(row[i] == d1[i]);
        } else if i == d1.len() {
        } else if i < d1.len() + 1 + d2.len() {
            assert(row[i] == d2[i - d1.len() - 1]);
        } else if i == d1.len() + 1 + d2.len() {
        } else {
            assert(row[i] == name[i - d1.len() - d2.len() - 2]);
        }
    }
    lemma_first_index_after(row, NEWLINE, rest);
    assert(listing_line(id, size, name).drop_last() =~= row);
    if name.len() > 0 {
        assert(row.last() == name.last());
    } else {
        assert(row.last() == COLON);
    }
}

/// A listing starts with the line of its first entry.
proof fn lemma_listing_front(entries: Seq<DirEntry>, paths: Seq<Seq<u8>>)
    requires
        entries.len() > 0,
    ensures
        listing(entries, paths) == entry_line(entries[0]@, paths) + listing(
            entries.skip(1),
            paths,
        ),
    decreases entries.len(),
{
    if entries.len() == 1 {
        assert(entries.drop_last() =~= Seq::<DirEntry>::empty());
        assert(entries.skip(1) =~= Seq::<DirEntry>::empty());
        assert(listing(entries, paths) =~= entry_line(entries[0]@, paths) + listing(
            entries.skip(1),
            paths,
        ));
    } else {
        let front = entries.drop_last();
        lemma_listing_front(front, paths);
        assert(front.skip(1) =~= entries.skip(1).drop_last());
        assert(listing(entries, paths) =~= entry_line(entries[0]@, paths) + listing(
            entries.skip(1),
            paths,
        ));
    }
}

/// What the server lists, the client finds: the name under which an entry
/// is listed leads to the identifier of that entry, if the name is plain,
/// identifier and size fit 32 bits, and every entry listed before it has
/// another name, plain too.
pub proof fn lemma_lookup_finds_entry(entries: Seq<DirEntry>, paths: Seq<Seq<u8>>, i: int)
    requires
        0 <= i < entries.len(),
        listed(entries[i]@, paths) matches Some(row) && row.id <= u32::MAX && row.size
            <= u32::MAX && plain(row.name),
        forall|j: int|
            0 <= j < i ==> (#[trigger] listed(entries[j]@, paths) matches Some(other) ==> plain(
                other.name,
            ) && other.name != listed(entries[i]@, paths).unwrap().name),
    ensures
        find_entry(listing(entries, paths), listed(entries[i]@, paths).unwrap().name) == Some(
            listed(entries[i]@, paths).unwrap().id as u32,
        ),
    decreases i,
{
    let row = listed(entries[i]@, paths).unwrap();
    let rest = listing(entries.skip(1), paths);
    lemma_listing_front(entries, paths);
    match listed(entries[0]@, paths) {
        None => {
            assert(listing(entries, paths) =~= rest);
        },
        Some(first) => {
            let line = listing_line(first.id, first.size, first.name);
            lemma_line_is_one_piece(first.id, first.size, first.name, rest);
            lemma_parse_row_text(first.id, first.size, first.name);
            assert((line + rest).take(line.len() as int) =~= line);
            assert((line + rest).skip(line.len() as int) =~= rest);
        },
    }
    if i > 0 {
        let later = entries.skip(1);
        assert(later[i - 1] == entries[i]);
        assert forall|j: int| 0 <= j < i - 1 implies (#[trigger] listed(later[j]@, paths) matches Some(
            other,
        ) ==> plain(other.name) && other.name != row.name) by {
            assert(later[j] == entries[j + 1]);
            assert(listed(entries[j + 1]@, paths) matches Some(other) ==> plain(other.name)
                && other.name != row.name);
        }
        lemma_lookup_finds_entry(later, paths, i - 1);
    }
}

/// Whether every byte of `s` is an ASCII character.
pub open spec fn ascii(s: Seq<u8>) -> bool {
    forall|i: int| 0 <= i < s.len() ==> #[trigger] s[i] < 0x80
}

/// ASCII characters are valid UTF-8.
pub proof fn lemma_ascii_is_text(s: Seq<u8>)
    requires
        ascii(s),
    ensures
        valid_utf8(s),
    decreases s.len(),
{
    if s.len() > 0 {
        let b = s[0];
        assert(b < 0x80);
        assert(b & 0x7f <= 0x7f) by (bit_vector);
        let rest = s.skip(1);
        assert(pop_first_scalar(s) =~= rest);
        assert forall|i: int| 0 <= i < rest.len() implies #[trigger] rest[i] < 0x80 by {
            assert(rest[i] == s[i + 1]);
        }
        lemma_ascii_is_text(rest);
    }
}

/// A line whose name is valid UTF-8 is valid UTF-8.
proof fn lemma_line_is_text(id: nat, size: nat, name: Seq<u8>)
    requires
        valid_utf8(name),
    ensures
        valid_utf8(listing_line(id, size, name)),
{
    let d1 = decimal(id);
    let d2 = decimal(size);
    lemma_decimal(id);
    lemma_decimal(size);
    assert(ascii(d1)) by {
        assert forall|i: int| 0 <= i < d1.len() implies #[trigger] d1[i] < 0x80 by {
            assert(ZERO <= d1[i] <= ZERO + 9);
        }
    }
    assert(ascii(d2)) by {
        assert forall|i: int| 0 <= i < d2.len() implies #[trigger] d2[i] < 0x80 by {
            assert(ZERO <= d2[i] <= ZERO + 9);
        }
    }
    lemma_ascii_is_text(d1);
    lemma_ascii_is_text(d2);
    lemma_ascii_is_text(seq![COLON]);
    lemma_ascii_is_text(seq![NEWLINE]);
    valid_utf8_concat(d1, seq![COLON]);
    valid_utf8_concat(d1 + seq![COLON], d2);
    valid_utf8_concat(d1 + seq![COLON] + d2, seq![COLON]);
    valid_utf8_concat(d1 + seq![COLON] + d2 + seq![COLON], name);
    valid_utf8_concat(row_text(id, size, name), seq![NEWLINE]);
    assert(listing_line(id, size, name) =~= row_text(id, size, name) + seq![NEWLINE]);
}

/// A listing is text: what the server writes is valid UTF-8.
pub proof fn lemma_listing_is_text(entries: Seq<DirEntry>, paths: Seq<Seq<u8>>)
    ensures
        valid_utf8(listing(entries, paths)),
    decreases entries.len(),
{
    if entries.len() > 0 {
        lemma_listing_is_text(entries.drop_last(), paths);
        let entry = entries.last();
        match listed(entry@, paths) {
            Some(row) => {
                let name = encode_utf8(entry.name.unwrap()@);
                encode_utf8_valid_utf8(entry.name.unwrap()@);
                lemma_ascii_is_text(seq![SLASH]);
                valid_utf8_concat(name, seq![SLASH]);
                assert(name.push(SLASH) =~= name + seq![SLASH]);
                lemma_line_is_text(row.id, row.size, row.name);
            },
            None => {},
        }
        valid_utf8_concat(listing(entries.drop_last(), paths), entry_line(entry@, paths));
    }
}

} // verus!
