//! Paths as the workers write them: `s3://bucket/key`, `oss://bucket/key`,
//! anything else local. What a path ends in says how its file is packed.

use vstd::prelude::*;
use vstd::string::StringExecFns;
use vstd::string::StringSliceAdditionalSpecFns;

use crate::task_queue::TaskItem;
use crate::text::{
    bytes_of, ends_with, find_byte, find_bytes, first_byte, first_occurrence, has_prefix,
    has_suffix, lemma_boundary_after_ascii, lemma_boundary_at, starts_with, str_slice,
};
use crate::units::slice_chars;

verus! {

/// The byte of a slash.
pub const SLASH: u8 = 47;

/// What object-store paths of the first kind begin with.
pub const S3_SCHEME: &'static str = "s3://";

/// What object-store paths of the second kind begin with.
pub const OSS_SCHEME: &'static str = "oss://";

/// What the part of a shard directory that names its subject begins with.
pub const SUBJECT_MARK: &'static str = "subject=";

/// A path can be split behind `scheme` when it begins with it, the scheme
/// ends in a byte below 128, and a slash follows somewhere behind it.
pub open spec fn splits_behind(bytes: Seq<u8>, scheme: Seq<u8>) -> bool {
    &&& scheme.len() > 0
    &&& scheme.last() < 0x80
    &&& has_prefix(bytes, scheme)
    &&& first_byte(bytes, SLASH, scheme.len() as int) >= 0
}

/// Splits a path behind its scheme into bucket and key: the bucket is what
/// stands between the scheme and the first slash behind it, the key what
/// stands behind that slash.
pub fn split_behind_scheme(path: &str, scheme: &str) -> (r: Option<(String, String)>)
    ensures
        r is Some <==> splits_behind(path.spec_bytes(), scheme.spec_bytes()),
        r matches Some((bucket, key)) ==> {
            let slash = first_byte(path.spec_bytes(), SLASH, scheme.spec_bytes().len() as int);
            &&& bytes_of(bucket@) == path.spec_bytes().subrange(
                scheme.spec_bytes().len() as int,
                slash,
            )
            &&& bytes_of(key@) == path.spec_bytes().subrange(
                slash + 1,
                path.spec_bytes().len() as int,
            )
        },
{
    let bytes = path.as_bytes();
    let prefix = scheme.as_bytes();
    let k: usize = prefix.len();
    if k == 0 || prefix[k - 1] >= 0x80 {
        return None;
    }
    if !starts_with(path, scheme) {
        return None;
    }
    let n: usize = bytes.len();
    match find_byte(bytes, SLASH, k) {
        Some(slash) => {
            proof {
                assert(bytes@.subrange(0, k as int)[k - 1] == prefix@[k - 1]);
                lemma_boundary_after_ascii(path, k - 1);
                lemma_boundary_after_ascii(path, slash as int);
                lemma_boundary_at(path, bytes@.len() as int);
            }
            let bucket = str_slice(path, k, slash);
            let key = str_slice(path, slash + 1, n);
            Some((String::from_str(bucket), String::from_str(key)))
        },
        None => None,
    }
}

/// Whether a path names an object of the first kind of store.
pub fn is_s3(path: &str) -> (b: bool)
    ensures
        b == has_prefix(path.spec_bytes(), S3_SCHEME.spec_bytes()),
{
    starts_with(path, S3_SCHEME)
}

/// Whether a path names an object of the second kind of store.
pub fn is_oss(path: &str) -> (b: bool)
    ensures
        b == has_prefix(path.spec_bytes(), OSS_SCHEME.spec_bytes()),
{
    starts_with(path, OSS_SCHEME)
}

/// Bucket and key of a path of the first kind of store.
pub fn split_s3_path(path: &str) -> (r: (String, String))
    requires
        splits_behind(path.spec_bytes(), S3_SCHEME.spec_bytes()),
    ensures
        split_behind_scheme_spec(path, S3_SCHEME, r),
{
    match split_behind_scheme(path, S3_SCHEME) {
        Some(parts) => parts,
        None => (String::new(), String::new()),
    }
}

/// Bucket and key of a path of the second kind of store.
pub fn split_oss_path(path: &str) -> (r: (String, String))
    requires
        splits_behind(path.spec_bytes(), OSS_SCHEME.spec_bytes()),
    ensures
        split_behind_scheme_spec(path, OSS_SCHEME, r),
{
    match split_behind_scheme(path, OSS_SCHEME) {
        Some(parts) => parts,
        None => (String::new(), String::new()),
    }
}

/// Bucket and key are the two parts of the path behind the scheme, before
/// and behind the first slash.
pub open spec fn split_behind_scheme_spec(path: &str, scheme: &str, r: (String, String)) -> bool {
    let slash = first_byte(path.spec_bytes(), SLASH, scheme.spec_bytes().len() as int);
    &&& bytes_of(r.0@) == path.spec_bytes().subrange(
        scheme.spec_bytes().len() as int,
        slash,
    )
    &&& bytes_of(r.1@) == path.spec_bytes().subrange(
        slash + 1,
        path.spec_bytes().len() as int,
    )
}

/// Why the address of a lock is refused.
#[derive(Clone, Copy, Debug, PartialEq, Eq, Structural)]
pub enum OssUrlError {
    /// The address does not begin with the scheme of the store.
    InvalidUrl,
    /// No path follows the bucket.
    MissingPath,
}

/// Bucket and path of the address of a lock; an error for an address that
/// does not begin with the scheme of the store, or has no slash behind the
/// bucket.
pub fn split_file_path(url: &str) -> (r: Result<(String, String), OssUrlError>)
    ensures
        !has_prefix(url.spec_bytes(), OSS_SCHEME.spec_bytes()) ==> r == Err::<
            (String, String),
            OssUrlError,
        >(OssUrlError::InvalidUrl),
        has_prefix(url.spec_bytes(), OSS_SCHEME.spec_bytes()) && !splits_behind(
            url.spec_bytes(),
            OSS_SCHEME.spec_bytes(),
        ) ==> r == Err::<(String, String), OssUrlError>(OssUrlError::MissingPath),
        splits_behind(url.spec_bytes(), OSS_SCHEME.spec_bytes()) ==> (r matches Ok(parts)
            && split_behind_scheme_spec(url, OSS_SCHEME, parts)),
{
    if !is_oss(url) {
        return Err(OssUrlError::InvalidUrl);
    }
    match split_behind_scheme(url, OSS_SCHEME) {
        Some(parts) => Ok(parts),
        None => Err(OssUrlError::MissingPath),
    }
}

/// The part of a shard directory that names its subject: from the first
/// `subject=` up to the slash behind it, or to the end. For this the mark
/// has to start on a byte below 128.
pub open spec fn subject_span(bytes: Seq<u8>, mark: Seq<u8>) -> Option<(int, int)> {
    let at = first_occurrence(bytes, mark, 0);
    if at < 0 || at >= bytes.len() || bytes[at] >= 0x80 {
        None
    } else {
        let slash = first_byte(bytes, SLASH, at);
        Some(
            (
                at,
                if slash < 0 {
                    bytes.len() as int
                } else {
                    slash
                },
            ),
        )
    }
}

/// The part of a shard directory that names its subject, such as
/// `subject=math`.
pub fn extract_subject_from_path(shard_dir: &str) -> (r: Option<String>)
    ensures
        match subject_span(shard_dir.spec_bytes(), SUBJECT_MARK.spec_bytes()) {
            Some((start, end)) => r matches Some(s) && bytes_of(s@)
                == shard_dir.spec_bytes().subrange(start, end) && s@ == slice_chars(
                shard_dir.spec_bytes(),
                start,
                end,
            ),
            None => r is None,
        },
{
    let bytes = shard_dir.as_bytes();
    match find_bytes(bytes, SUBJECT_MARK.as_bytes(), 0) {
        Some(at) => {
            if at >= bytes.len() || bytes[at] >= 0x80 {
                return None;
            }
            let end: usize = match find_byte(bytes, SLASH, at) {
                Some(slash) => {
                    proof {
                        lemma_boundary_after_ascii(shard_dir, slash as int);
                    }
                    slash
                },
                None => {
                    proof {
                        lemma_boundary_at(shard_dir, bytes@.len() as int);
                    }
                    bytes.len()
                },
            };
            proof {
                lemma_boundary_after_ascii(shard_dir, at as int);
            }
            Some(String::from_str(str_slice(shard_dir, at, end)))
        },
        None => None,
    }
}

/// Whether a separator goes between a directory and what is joined to it:
/// not behind an empty directory, nor behind one that ends in a slash.
pub open spec fn needs_separator(base: Seq<u8>) -> bool {
    base.len() > 0 && base.last() != SLASH
}

/// A directory and a relative path under it, as one path.
pub fn join_path(base: &str, relative: &str) -> (joined: String)
    ensures
        joined@ == base@ + if needs_separator(base.spec_bytes()) {
            "/"@
        } else {
            Seq::<char>::empty()
        } + relative@,
{
    let bytes = base.as_bytes();
    let n: usize = bytes.len();
    let mut joined = String::from_str(base);
    if n > 0 && bytes[n - 1] != SLASH {
        joined.append("/");
    } else {
        proof {
            assert(base@ + Seq::<char>::empty() =~= base@);
        }
    }
    joined.append(relative);
    joined
}

/// The directory for the output of a task: the subject of its shard
/// directory under the base directory, or the base directory itself where
/// the shard directory names no subject.
pub fn get_task_output_directory(task_item: &TaskItem, base_output_dir: &str) -> (dir: String)
    ensures
        match subject_span(bytes_of(task_item.shard_dir@), SUBJECT_MARK.spec_bytes()) {
            Some((start, end)) => dir@ == base_output_dir@ + if needs_separator(
                base_output_dir.spec_bytes(),
            ) {
                "/"@
            } else {
                Seq::<char>::empty()
            } + slice_chars(bytes_of(task_item.shard_dir@), start, end),
            None => dir@ == base_output_dir@,
        },
{
    match extract_subject_from_path(task_item.shard_dir.as_str()) {
        Some(subject) => join_path(base_output_dir, subject.as_str()),
        None => String::from_str(base_output_dir),
    }
}

/// How a file is packed.
#[derive(Clone, Copy, Debug, PartialEq, Eq, Structural)]
pub enum Compression {
    /// Not at all.
    Raw,
    /// With gzip.
    Gzip,
    /// With zstandard.
    Zstd,
}

/// How a file is packed, by what its name ends in: `.gz`, `.zst` or
/// `.zstd`; anything else is not packed.
pub fn compression_for(path: &str) -> (c: Compression)
    ensures
        c == if has_suffix(path.spec_bytes(), ".gz".spec_bytes()) {
            Compression::Gzip
        } else if has_suffix(path.spec_bytes(), ".zstd".spec_bytes()) || has_suffix(
            path.spec_bytes(),
            ".zst".spec_bytes(),
        ) {
            Compression::Zstd
        } else {
            Compression::Raw
        },
{
    if ends_with(path, ".gz") {
        Compression::Gzip
    } else if ends_with(path, ".zstd") || ends_with(path, ".zst") {
        Compression::Zstd
    } else {
        Compression::Raw
    }
}

/// Whether a file is a shard of documents, by what its name ends in.
pub fn is_shard_file(name: &str) -> (b: bool)
    ensures
        b == (has_suffix(name.spec_bytes(), ".jsonl".spec_bytes()) || has_suffix(
            name.spec_bytes(),
            ".jsonl.gz".spec_bytes(),
        ) || has_suffix(name.spec_bytes(), ".jsonl.zst".spec_bytes()) || has_suffix(
            name.spec_bytes(),
            ".jsonl.zstd".spec_bytes(),
        )),
{
    ends_with(name, ".jsonl") || ends_with(name, ".jsonl.gz") || ends_with(name, ".jsonl.zst")
        || ends_with(name, ".jsonl.zstd")
}

/// The position behind the `level`-th slash before `pos`, counted from the
/// back, or `-1` where there are fewer slashes before `pos`. No slash is
/// sought for a level of zero.
pub open spec fn tail_start(bytes: Seq<u8>, level: nat, pos: int) -> int
    decreases pos,
{
    if level == 0 {
        pos
    } else if pos <= 0 {
        -1
    } else if bytes[pos - 1] == SLASH {
        if level == 1 {
            pos
        } else {
            tail_start(bytes, (level - 1) as nat, pos - 1)
        }
    } else {
        tail_start(bytes, level, pos - 1)
    }
}

/// Where the part of a path starts that is kept for the name of its
/// output: its last `level` components, or its last one if it has no more
/// than `level`.
pub open spec fn kept_start(bytes: Seq<u8>, level: nat) -> int {
    let by_level = tail_start(bytes, level, bytes.len() as int);
    let by_name = tail_start(bytes, 1, bytes.len() as int);
    if by_level >= 0 {
        by_level
    } else if by_name >= 0 {
        by_name
    } else {
        0
    }
}

/// The position behind the `level`-th slash from the back.
fn find_tail_start(bytes: &[u8], level: usize) -> (at: Option<usize>)
    ensures
        match at {
            Some(i) => i == tail_start(bytes@, level as nat, bytes@.len() as int)
                && i <= bytes@.len() && (level > 0 ==> i > 0 && bytes@[i - 1] == SLASH),
            None => tail_start(bytes@, level as nat, bytes@.len() as int) < 0,
        },
{
    let n: usize = bytes.len();
    if level == 0 {
        return Some(n);
    }
    let mut left: usize = level;
    let mut pos: usize = n;
    while pos > 0
        invariant
            pos <= n,
            n == bytes@.len(),
            1 <= left <= level,
            tail_start(bytes@, level as nat, n as int) == tail_start(
                bytes@,
                left as nat,
                pos as int,
            ),
        decreases pos,
    {
        if bytes[pos - 1] == SLASH {
            if left == 1 {
                return Some(pos);
            }
            left -= 1;
        }
        pos -= 1;
    }
    None
}

/// The part of the path of an input that is kept for the name of its
/// output: its last `remain_file_path_suffix_level` components, or its
/// last one if it has no more than that.
pub fn kept_suffix<'a>(input_filename: &'a str, remain_file_path_suffix_level: usize) -> (kept:
    &'a str)
    ensures
        kept.spec_bytes() == input_filename.spec_bytes().subrange(
            kept_start(input_filename.spec_bytes(), remain_file_path_suffix_level as nat),
            input_filename.spec_bytes().len() as int,
        ),
        kept@ == slice_chars(
            input_filename.spec_bytes(),
            kept_start(input_filename.spec_bytes(), remain_file_path_suffix_level as nat),
            input_filename.spec_bytes().len() as int,
        ),
{
    let bytes = input_filename.as_bytes();
    let n: usize = bytes.len();
    let start: usize = match find_tail_start(bytes, remain_file_path_suffix_level) {
        Some(at) => at,
        None => match find_tail_start(bytes, 1) {
            Some(at) => at,
            None => 0,
        },
    };
    proof {
        lemma_boundary_at(input_filename, n as int);
        if 0 < start < n {
            lemma_boundary_after_ascii(input_filename, start - 1);
        } else {
            lemma_boundary_at(input_filename, start as int);
        }
    }
    str_slice(input_filename, start, n)
}

/// The path of the output of an input file that was given by name: its
/// kept suffix under the output directory.
pub fn get_output_filename(
    input_filename: &str,
    output_directory: &str,
    remain_file_path_suffix_level: usize,
) -> (path: String)
    ensures
        path@ == output_directory@ + if needs_separator(output_directory.spec_bytes()) {
            "/"@
        } else {
            Seq::<char>::empty()
        } + slice_chars(
            input_filename.spec_bytes(),
            kept_start(input_filename.spec_bytes(), remain_file_path_suffix_level as nat),
            input_filename.spec_bytes().len() as int,
        ),
{
    join_path(output_directory, kept_suffix(input_filename, remain_file_path_suffix_level))
}

/// The marker for the next page of a listing: the last key of this page
/// where the listing goes on and the page holds a key, nothing otherwise.
pub fn next_marker(is_truncated: bool, keys: &Vec<String>) -> (marker: Option<String>)
    ensures
        marker is Some <==> is_truncated && keys@.len() > 0,
        marker matches Some(m) ==> m@ == keys@.last()@,
{
    if is_truncated && keys.len() > 0 {
        Some(keys[keys.len() - 1].clone())
    } else {
        None
    }
}

} // verus!
