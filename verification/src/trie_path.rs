//! Hex-prefix paths of trie nodes.
//!
//! The first byte of a path holds two flags: leaf or extension, and whether the
//! number of nibbles is odd. With an odd number the first nibble sits in the
//! low half of the first byte; the other nibbles follow two to a byte.

use vstd::prelude::*;
use crate::bytes::append_bytes;
use crate::receipt_trie::{
    EXTENSION_PATH_FLAG, LEAF_PATH_FLAG, NIBBLE_MASK, ODD_NIBBLES_FLAG, PATH_FLAG_MASK,
};

verus! {

/// Most nibbles that a path can have: a key of 32 bytes.
pub const MAX_NIBBLES: usize = 64;

/// Whether a path has an odd number of nibbles.
pub open spec fn path_is_odd(path: Seq<u8>) -> bool {
    path[0] & ODD_NIBBLES_FLAG != 0
}

/// Number of nibbles in a path.
pub open spec fn path_nibbles(path: Seq<u8>) -> int {
    (path.len() - 1) * 2 + if path_is_odd(path) {
        1int
    } else {
        0int
    }
}

/// A path has its flag byte and at most 64 nibbles.
pub open spec fn path_valid(path: Seq<u8>) -> bool {
    path.len() >= 1 && path_nibbles(path) <= MAX_NIBBLES
}

/// The nibbles of a path, packed as the compact proof carries them: the odd
/// first nibble in a byte of its own, then the full bytes.
pub open spec fn path_packed(path: Seq<u8>) -> Seq<u8> {
    if path_is_odd(path) {
        seq![path[0] & NIBBLE_MASK] + path.skip(1)
    } else {
        path.skip(1)
    }
}

/// A borrowed hex-prefix path.
#[derive(Debug, Clone)]
pub struct TriePath<'a>(&'a [u8]);

impl<'a> View for TriePath<'a> {
    type V = Seq<u8>;

    /// The bytes of the path, flag byte first.
    closed spec fn view(&self) -> Seq<u8> {
        self.0@
    }
}

impl<'a> TriePath<'a> {
    /// The path is valid.
    pub closed spec fn wf(&self) -> bool {
        path_valid(self.0@)
    }

    /// A well-formed path is valid.
    pub proof fn lemma_wf(&self)
        requires
            self.wf(),
        ensures
            path_valid(self@),
    {
    }

    /// Takes `path` as a hex-prefix path.
    pub fn new(path: &'a [u8]) -> (new_path: Self)
        requires
            path_valid(path@),
        ensures
            new_path.wf(),
            new_path@ == path@,
    {
        TriePath(path)
    }

    /// Whether the number of nibbles is odd.
    pub fn is_odd(&self) -> (odd: bool)
        requires
            self.wf(),
        ensures
            odd == path_is_odd(self@),
    {
        self.0[0] & ODD_NIBBLES_FLAG != 0
    }

    /// Whether this is the path of a leaf.
    pub fn is_leaf(&self) -> (leaf: bool)
        requires
            self.wf(),
        ensures
            leaf == (self@[0] & PATH_FLAG_MASK == LEAF_PATH_FLAG),
    {
        self.0[0] & PATH_FLAG_MASK == LEAF_PATH_FLAG
    }

    /// Whether this is the path of an extension node.
    pub fn is_extension(&self) -> (extension: bool)
        requires
            self.wf(),
        ensures
            extension == (self@[0] & PATH_FLAG_MASK == EXTENSION_PATH_FLAG),
    {
        self.0[0] & PATH_FLAG_MASK == EXTENSION_PATH_FLAG
    }

    /// Total nibbles in path.
    pub fn nibbles(&self) -> (n: u8)
        requires
            self.wf(),
        ensures
            n == path_nibbles(self@),
    {
        let odd: u8 = if self.is_odd() {
            1
        } else {
            0
        };
        (self.0.len() - 1) as u8 * 2 + odd
    }

    /// Total bytes that the nibbles take when packed.
    pub fn bytes(&self) -> (n: u8)
        requires
            self.wf(),
        ensures
            n == path_packed(self@).len(),
    {
        let odd: u8 = if self.is_odd() {
            1
        } else {
            0
        };
        (self.0.len() - 1) as u8 + odd
    }

    /// Appends the packed nibbles to `buf`.
    pub fn write_bytes(&self, buf: &mut Vec<u8>)
        requires
            self.wf(),
        ensures
            final(buf)@ == old(buf)@ + path_packed(self@),
    {
        if self.is_odd() {
            buf.push(self.0[0] & NIBBLE_MASK);
        }
        append_bytes(buf, &self.0[1..self.0.len()]);
        assert(buf@ =~= old(buf)@ + path_packed(self@));
    }
}

} // verus!
