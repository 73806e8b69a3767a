//! How the content of a resource is cut into slices.
//!
//! Content of `len` bytes has `ceil(len / SLICE_SIZE)` slices, numbered from
//! 1. Every slice but the last is `SLICE_SIZE` bytes long; the last holds the
//! rest, between 1 and `SLICE_SIZE` bytes. A slice number outside
//! `1..=total` names the empty slice.

use crate::common::SLICE_SIZE;
use crate::bytes::push_bytes;
use vstd::prelude::*;
use vstd::slice::slice_subrange;
use vstd::string::StringSliceAdditionalSpecFns;

verus! {

/// Number of slices that content of `len` bytes is cut into.
pub open spec fn total_slices(len: nat) -> nat {
    ((len + SLICE_SIZE - 1) / (SLICE_SIZE as int)) as nat
}

/// Whether content of `len` bytes has a slice numbered `k`.
pub open spec fn has_slice(len: nat, k: nat) -> bool {
    1 <= k <= total_slices(len)
}

/// Offset of slice `k` in content of `len` bytes; 0 where there is no such
/// slice.
pub open spec fn slice_offset(len: nat, k: nat) -> nat {
    if has_slice(len, k) {
        ((k - 1) * SLICE_SIZE) as nat
    } else {
        0
    }
}

/// Length of slice `k` of content of `len` bytes; 0 where there is no such
/// slice.
pub open spec fn slice_len(len: nat, k: nat) -> nat {
    if !has_slice(len, k) {
        0
    } else if k * SLICE_SIZE <= len {
        SLICE_SIZE as nat
    } else {
        (len - (k - 1) * SLICE_SIZE) as nat
    }
}

/// The bytes of slice `k` of `content`.
pub open spec fn slice_body(content: Seq<u8>, k: nat) -> Seq<u8> {
    content.subrange(
        slice_offset(content.len(), k) as int,
        (slice_offset(content.len(), k) + slice_len(content.len(), k)) as int,
    )
}

/// The first `n` slices of `content`, one after the other.
pub open spec fn joined_slices(content: Seq<u8>, n: nat) -> Seq<u8>
    decreases n,
{
    if n == 0 {
        Seq::empty()
    } else {
        joined_slices(content, (n - 1) as nat) + slice_body(content, n)
    }
}

/// Counts the slices of content of `len` bytes.
pub fn last_slice(len: usize) -> (total: usize)
    ensures
        total == total_slices(len as nat),
{
    let leftover = len % SLICE_SIZE;
    len / SLICE_SIZE + (if leftover == 0 {
        0
    } else {
        1
    })
}

/// Cuts slice `slice` out of `content`, and counts the slices of `content`.
pub fn get_slice(content: &[u8], slice: usize) -> (out: (Vec<u8>, usize))
    ensures
        out.0@ == slice_body(content@, slice as nat),
        out.1 == total_slices(content@.len()),
{
    let len = content.len();
    let total = last_slice(len);
    let mut body: Vec<u8> = Vec::new();
    if slice == 0 || slice > total {
        assert(body@ =~= slice_body(content@, slice as nat));
        return (body, total);
    }
    let start = (slice - 1) * SLICE_SIZE;
    let end = if len - start > SLICE_SIZE {
        start + SLICE_SIZE
    } else {
        len
    };
    push_bytes(&mut body, slice_subrange(content, start, end));
    (body, total)
}

/// Cuts slice `slice` out of the bytes of `data`, and counts the slices of
/// `data`.
pub fn get_str_slice(data: &str, slice: usize) -> (out: (Vec<u8>, usize))
    ensures
        out.0@ == slice_body(data.spec_bytes(), slice as nat),
        out.1 == total_slices(data.spec_bytes().len()),
{
    get_slice(data.as_bytes(), slice)
}

/// Where a slice of a file lies, and how many slices the file has.
#[derive(Debug, Clone, Copy, PartialEq, Eq)]
pub struct FileSlice {
    /// Offset of the first byte to read.
    pub offset: u64,
    /// Number of bytes to read.
    pub len: usize,
    /// Number of slices of the whole file.
    pub total: u64,
}

/// Locates slice `slice` of a file of `len` bytes, so that only that range
/// has to be read.
pub fn get_file_slice(len: u64, slice: usize) -> (out: FileSlice)
    ensures
        out.offset == slice_offset(len as nat, slice as nat),
        out.len == slice_len(len as nat, slice as nat),
        out.total == total_slices(len as nat),
{
    let size = SLICE_SIZE as u64;
    let leftover = len % size;
    let total = len / size + (if leftover == 0 {
        0
    } else {
        1
    });
    let number = slice as u64;
    if number == 0 || number > total {
        return FileSlice { offset: 0, len: 0, total };
    }
    let readable: usize = if number == total && leftover != 0 {
        leftover as usize
    } else {
        SLICE_SIZE
    };
    FileSlice { offset: (number - 1) * size, len: readable, total }
}

/// The slice count is the length divided by the slice size, rounded up:
/// it is the least count whose slices can hold the content.
pub proof fn lemma_total_slices(len: nat)
    ensures
        len == 0 <==> total_slices(len) == 0,
        total_slices(len) * SLICE_SIZE >= len,
        len > 0 ==> (total_slices(len) - 1) * SLICE_SIZE < len,
{
}

/// Every slice but the last is full; the last is not empty and ends the
/// content; there is nothing outside `1..=total`.
pub proof fn lemma_slice_len(len: nat, k: nat)
    ensures
        1 <= k < total_slices(len) ==> slice_len(len, k) == SLICE_SIZE,
        1 <= k == total_slices(len) ==> 1 <= slice_len(len, k) <= SLICE_SIZE && slice_offset(
            len,
            k,
        ) + slice_len(len, k) == len,
        !has_slice(len, k) ==> slice_len(len, k) == 0,
        slice_offset(len, k) + slice_len(len, k) <= len,
{
}

/// Boundary: content whose length is a positive multiple of the slice size
/// has exactly that many slices, and its last slice is full, not empty.
pub proof fn lemma_exact_multiple(count: nat)
    requires
        count >= 1,
    ensures
        total_slices((count * SLICE_SIZE) as nat) == count,
        slice_len((count * SLICE_SIZE) as nat, count) == SLICE_SIZE,
{
}

/// Boundary: empty content has no slices, and every slice number names the
/// empty slice.
pub proof fn lemma_empty_content(k: nat)
    ensures
        total_slices(0) == 0,
        slice_body(Seq::empty(), k) == Seq::<u8>::empty(),
        joined_slices(Seq::empty(), 0) == Seq::<u8>::empty(),
{
}

/// The first `n` slices joined are the content up to the end of slice `n`.
pub proof fn lemma_joined_prefix(content: Seq<u8>, n: nat)
    requires
        n <= total_slices(content.len()),
    ensures
        n < total_slices(content.len()) ==> joined_slices(content, n) == content.take(
            n * SLICE_SIZE,
        ),
        n == total_slices(content.len()) ==> joined_slices(content, n) == content,
    decreases n,
{
    let len = content.len();
    if n == 0 {
        assert(content.take(0) =~= Seq::<u8>::empty());
        if total_slices(len) == 0 {
            lemma_total_slices(len);
            assert(content =~= Seq::<u8>::empty());
        }
    } else {
        lemma_joined_prefix(content, (n - 1) as nat);
        lemma_slice_len(len, n);
        let before = content.take((n - 1) * SLICE_SIZE);
        assert(joined_slices(content, (n - 1) as nat) == before);
        if n < total_slices(len) {
            assert(before + slice_body(content, n) =~= content.take(n * SLICE_SIZE));
        } else {
            assert(before + slice_body(content, n) =~= content);
        }
    }
}

/// Slice-count law: the slices of a content, joined in order, are the
/// content.
pub proof fn lemma_joined_slices(content: Seq<u8>)
    ensures
        joined_slices(content, total_slices(content.len())) == content,
{
    lemma_joined_prefix(content, total_slices(content.len()));
}

/// A slice is as long as its range says.
pub proof fn lemma_slice_body_len(content: Seq<u8>, k: nat)
    ensures
        slice_body(content, k).len() == slice_len(content.len(), k),
{
    lemma_slice_len(content.len(), k);
}

} // verus!
