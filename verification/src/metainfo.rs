//! The record that a metainfo file (a `.torrent` file) describes, and the
//! rules that its fields obey.

use vstd::prelude::*;

verus! {

/// The piece hashes that `bytes` holds: every run of 20 bytes is one hash.
pub open spec fn piece_hashes(bytes: Seq<u8>) -> Seq<Seq<u8>> {
    Seq::new(bytes.len() / 20, |i: int| bytes.subrange(20 * i, 20 * i + 20))
}

/// The SHA1 hashes of the pieces, in the order of the pieces.
#[derive(Debug)]
pub struct Hashes(pub Vec<[u8; 20]>);

impl View for Hashes {
    type V = Seq<Seq<u8>>;

    open spec fn view(&self) -> Seq<Seq<u8>> {
        Seq::new(self.0@.len(), |i: int| self.0@[i]@)
    }
}

impl Hashes {
    /// Cuts `bytes` into hashes of 20 bytes each.
    ///
    /// A length that is no multiple of 20 is refused before any hash is
    /// made.
    pub fn from_bytes(bytes: &[u8]) -> (r: Option<Hashes>)
        ensures
            match r {
                Some(hashes) => bytes@.len() % 20 == 0 && hashes@ == piece_hashes(bytes@),
                None => bytes@.len() % 20 != 0,
            },
    {
        let len: usize = bytes.len();
        if len % 20 != 0 {
            return None;
        }
        let count: usize = len / 20;
        let mut hashes: Vec<[u8; 20]> = Vec::new();
        let mut i: usize = 0;
        while i < count
            invariant
                len == bytes@.len(),
                len == 20 * count,
                0 <= i <= count,
                hashes@.len() == i,
                forall|c: int|
                    0 <= c < i ==> (#[trigger] hashes@[c])@ == bytes@.subrange(20 * c, 20 * c + 20),
            decreases count - i,
        {
            let mut hash: [u8; 20] = [0u8; 20];
            let mut j: usize = 0;
            while j < 20
                invariant
                    len == bytes@.len(),
                    len == 20 * count,
                    i < count,
                    0 <= j <= 20,
                    forall|b: int| 0 <= b < j ==> hash@[b] == bytes@[20 * i + b],
                decreases 20 - j,
            {
                hash.set(j, bytes[20 * i + j]);
                j += 1;
            }
            assert(hash@ == bytes@.subrange(20 * i, 20 * i + 20));
            hashes.push(hash);
            i += 1;
        }
        let r = Hashes(hashes);
        assert(r@ == piece_hashes(bytes@));
        Some(r)
    }
}

/// One file of a download of several files.
#[derive(Debug)]
pub struct File {
    /// The length of the file, in bytes.
    pub length: usize,
    /// The directories that lead to the file, and last the file's name.
    pub path: Vec<String>,
}

/// What a download consists of: one file, or several.
#[derive(Debug)]
pub enum Keys {
    /// The download is a single file.
    SingleFile {
        /// The length of the file, in bytes.
        length: usize,
    },
    /// The download is a set of files that go in a directory.
    MultiFile { files: Vec<File> },
}

impl Keys {
    /// Tells a single file from several files by the keys that are there:
    /// `length` alone is a single file, `files` alone is several files.
    /// Both together, and neither, are refused.
    pub fn select(length: Option<usize>, files: Option<Vec<File>>) -> (r: Option<Keys>)
        ensures
            r == match (length, files) {
                (Some(n), None) => Some(Keys::SingleFile { length: n }),
                (None, Some(list)) => Some(Keys::MultiFile { files: list }),
                _ => None,
            },
    {
        match (length, files) {
            (Some(n), None) => Some(Keys::SingleFile { length: n }),
            (None, Some(list)) => Some(Keys::MultiFile { files: list }),
            _ => None,
        }
    }
}

/// The `info` dictionary of a metainfo file.
#[derive(Debug)]
pub struct Info {
    /// The suggested name of the file, or of the directory.
    pub name: String,
    /// The number of bytes in each piece.
    pub plength: usize,
    /// The hash of each piece.
    pub pieces: Hashes,
    /// One file, or several.
    pub keys: Keys,
}

/// A metainfo file.
#[derive(Debug)]
pub struct Torrent {
    /// The URL of the tracker.
    pub announce: String,
    pub info: Info,
}

impl Torrent {
    /// The length of the download, where it is a single file.
    ///
    /// A download of several files has no length to report here: it is
    /// not supported, and the caller has to fail on `None`.
    pub fn single_file_length(&self) -> (r: Option<usize>)
        ensures
            r == match self.info.keys {
                Keys::SingleFile { length } => Some(length),
                Keys::MultiFile { .. } => None,
            },
    {
        match &self.info.keys {
            Keys::SingleFile { length } => Some(*length),
            Keys::MultiFile { .. } => None,
        }
    }
}

} // verus!
