//! Backup records and the decisions of backup and restore: naming,
//! checksums, where a restore writes, and the order of a listing.
//! Reading and writing the files is the caller's part.

use vstd::prelude::*;
use crate::config::now_rfc3339;
use crate::paths::{expand, extension, extension_of, file_name_of, home_view, join_path, join_paths, last_segment, stem, stem_of, expand_path};
use crate::grammar::{find_char, find_in};
use crate::text::{chars_of, lex_lt, str_eq, str_lt, string_of_range};
use crate::shortcut::opt_view;

verus! {

/// The lowercase hexadecimal SHA-256 digest of some bytes.
pub uninterp spec fn sha256_hex_of(data: Seq<u8>) -> Seq<char>;

/// Relies on `sha2::Sha256::digest` and the `LowerHex` format of its
/// 32-byte output (generic-array): two hex digits per byte.
#[verifier::external_body]
fn sha256_hex(data: &Vec<u8>) -> (r: String)
    ensures
        r@ == sha256_hex_of(data@),
        r@.len() == 64,
{
    format!("{:x}", <sha2::Sha256 as sha2::Digest>::digest(data))
}

/// Relies on `chrono::Utc::now` formatted as `%Y%m%d_%H%M%S`: the current
/// time as a file-name stamp. Nothing is promised of its value.
#[verifier::external_body]
fn compact_timestamp() -> (r: String) {
    chrono::Utc::now().format("%Y%m%d_%H%M%S").to_string()
}

/// The instant that an RFC 3339 text denotes, in seconds since the Unix
/// epoch, or `None` when the text is not RFC 3339.
pub uninterp spec fn rfc3339_seconds_of(s: Seq<char>) -> Option<i64>;

/// Relies on `chrono::DateTime::parse_from_rfc3339` and `timestamp`.
#[verifier::external_body]
fn rfc3339_seconds(s: &str) -> (r: Option<i64>)
    ensures
        r == rfc3339_seconds_of(s@),
{
    match chrono::DateTime::parse_from_rfc3339(s) {
        Ok(d) => Some(d.timestamp()),
        Err(_) => None,
    }
}

/// A snapshot of a configuration file, kept in the backup directory.
#[derive(Debug, Clone, PartialEq)]
pub struct Backup {
    /// Where the copy is stored.
    pub file_path: String,
    /// The file that was copied.
    pub original_path: String,
    /// Creation time, as RFC 3339 text.
    pub created_at: String,
    /// Lowercase hex SHA-256 of the copy's bytes at creation.
    pub checksum: String,
    /// Why the backup was made.
    pub description: Option<String>,
    /// Size of the copy in bytes.
    pub size_bytes: u64,
}

/// Why a restore was refused.
#[derive(Debug, Clone, Copy, PartialEq, Eq)]
pub enum BackupError {
    /// The copy's bytes no longer have the recorded checksum.
    ChecksumMismatch,
}

impl BackupError {
    pub fn message(&self) -> (r: String)
        ensures
            r@ == "Backup checksum mismatch - file may be corrupted"@,
    {
        String::from_str("Backup checksum mismatch - file may be corrupted")
    }
}

impl Backup {
    /// A record created now, without description.
    pub fn new(file_path: String, original_path: String, checksum: String, size_bytes: u64) -> (r:
        Backup)
        ensures
            r.file_path == file_path,
            r.original_path == original_path,
            r.checksum == checksum,
            r.size_bytes == size_bytes,
            r.description is None,
    {
        Backup {
            file_path,
            original_path,
            created_at: now_rfc3339(),
            checksum,
            description: None,
            size_bytes,
        }
    }

    /// A record created now, with a description.
    pub fn with_description(
        file_path: String,
        original_path: String,
        checksum: String,
        size_bytes: u64,
        description: String,
    ) -> (r: Backup)
        ensures
            r.file_path == file_path,
            r.original_path == original_path,
            r.checksum == checksum,
            r.size_bytes == size_bytes,
            r.description == Some(description),
    {
        Backup {
            file_path,
            original_path,
            created_at: now_rfc3339(),
            checksum,
            description: Some(description),
            size_bytes,
        }
    }

    /// Whether the recorded checksum is `expected_checksum`.
    pub fn verify_checksum(&self, expected_checksum: &str) -> (r: bool)
        ensures
            r == (self.checksum@ == expected_checksum@),
    {
        str_eq(self.checksum.as_str(), expected_checksum)
    }

    /// Seconds between creation and now, or 0 when the creation time
    /// cannot be read.
    pub fn age_seconds(&self) -> (r: i64)
        ensures
            exists|now: Seq<char>|
                r == age_value(rfc3339_seconds_of(self.created_at@), rfc3339_seconds_of(now)),
            rfc3339_seconds_of(self.created_at@) is None ==> r == 0,
            r >= 0,
    {
        let now = now_rfc3339();
        age_from(rfc3339_seconds(self.created_at.as_str()), rfc3339_seconds(now.as_str()))
    }
}

/// `|now - created|` in seconds, capped at `i64::MAX`, or 0 when either
/// time is unknown.
pub open spec fn age_value(created: Option<i64>, now: Option<i64>) -> int {
    match (created, now) {
        (Some(c), Some(n)) => {
            let d = if n >= c { n - c } else { c - n };
            if d > i64::MAX { i64::MAX as int } else { d }
        },
        _ => 0,
    }
}

pub fn age_from(created: Option<i64>, now: Option<i64>) -> (r: i64)
    ensures
        r == age_value(created, now),
        r >= 0,
{
    match (created, now) {
        (Some(c), Some(n)) => {
            let d: i128 = if n >= c { n as i128 - c as i128 } else { c as i128 - n as i128 };
            if d > i64::MAX as i128 { i64::MAX } else { d as i64 }
        },
        _ => 0,
    }
}

/// The name of a backup of the file named `name` made at `stamp`.
pub open spec fn backup_name(name: Seq<char>, stamp: Seq<char>) -> Seq<char> {
    name + "_"@ + stamp + ".backup"@
}

/// The name under which a source file is backed up: its last path
/// segment, or `config` when that is empty, `.` or `..`.
pub open spec fn source_name(path: Seq<char>) -> Seq<char> {
    let n = last_segment(path);
    if n.len() == 0 || n == "."@ || n == ".."@ {
        "config"@
    } else {
        n
    }
}

fn source_name_of(path: &str) -> (r: String)
    ensures
        r@ == source_name(path@),
{
    let n = file_name_of(path);
    if n.as_str().unicode_len() == 0 || str_eq(n.as_str(), ".") || str_eq(n.as_str(), "..") {
        String::from_str("config")
    } else {
        n
    }
}

/// The record of a backup of `content`, read from `source_path`, stored
/// in `backup_dir` with the time stamp `stamp`.
pub fn plan_backup(
    source_path: &str,
    content: &Vec<u8>,
    backup_dir: &str,
    stamp: &str,
    description: Option<String>,
) -> (r: Backup)
    ensures
        r.file_path@ == join_path(backup_dir@, backup_name(source_name(source_path@), stamp@)),
        r.original_path@ == source_path@,
        r.checksum@ == sha256_hex_of(content@),
        r.size_bytes == content@.len(),
        r.description == description,
{
    let mut name = source_name_of(source_path);
    name.push_str("_");
    name.push_str(stamp);
    name.push_str(".backup");
    let path = join_paths(backup_dir, name.as_str());
    let checksum = sha256_hex(content);
    let size = content.len() as u64;
    match description {
        Some(d) => Backup::with_description(path, String::from_str(source_path), checksum, size, d),
        None => Backup::new(path, String::from_str(source_path), checksum, size),
    }
}

/// The record of a backup made now; see `plan_backup`.
pub fn new_backup_record(
    source_path: &str,
    content: &Vec<u8>,
    backup_dir: &str,
    description: Option<String>,
) -> (r: Backup)
    ensures
        r.original_path@ == source_path@,
        r.checksum@ == sha256_hex_of(content@),
        r.size_bytes == content@.len(),
        r.description == description,
        exists|stamp: Seq<char>|
            r.file_path@ == join_path(backup_dir@, backup_name(source_name(source_path@), stamp)),
{
    let stamp = compact_timestamp();
    plan_backup(source_path, content, backup_dir, stamp.as_str(), description)
}

/// Where a restore writes, when the backup's bytes are intact: the given
/// target, else the original path.
pub open spec fn restore_target(b: Backup, target: Option<Seq<char>>) -> Seq<char> {
    match target {
        Some(t) => t,
        None => b.original_path@,
    }
}

/// The bytes read back from a backup file still have its recorded checksum.
pub open spec fn restore_accepts(b: Backup, content: Seq<u8>) -> bool {
    sha256_hex_of(content) == b.checksum@
}

/// Decides a restore from the bytes read back from the backup file:
/// refused when their checksum is not the recorded one, else the path to
/// write them to.
pub fn check_restore(backup: &Backup, content: &Vec<u8>, target: Option<String>) -> (r: Result<
    String,
    BackupError,
>)
    ensures
        r is Ok <==> restore_accepts(*backup, content@),
        r is Ok ==> r->Ok_0@ == restore_target(*backup, opt_view(target)),
        r is Err ==> r->Err_0 == BackupError::ChecksumMismatch,
{
    let actual = sha256_hex(content);
    if !str_eq(actual.as_str(), backup.checksum.as_str()) {
        return Err(BackupError::ChecksumMismatch);
    }
    match target {
        Some(t) => Ok(t),
        None => Ok(backup.original_path.clone()),
    }
}

/// The file name of the original that a backup file name suggests: the
/// part of its stem before the first `_`.
pub open spec fn original_name(file_name: Seq<char>) -> Seq<char> {
    let s = stem(file_name);
    s.subrange(0, find_char(s, '_') as int)
}

/// Whether a file name is that of a backup (extension `backup`).
pub fn is_backup_file_name(name: &str) -> (r: bool)
    ensures
        r == (extension(name@) == Some("backup"@)),
{
    match extension_of(name) {
        Some(e) => str_eq(e.as_str(), "backup"),
        None => false,
    }
}

/// The record of a backup file found in the backup directory: its bytes
/// are checksummed afresh and its original is guessed as
/// `~/.config/skhd/<original name>`.
pub fn listed_backup(path: String, content: &Vec<u8>, home: Option<&str>) -> (r: Backup)
    ensures
        r.file_path == path,
        r.original_path@ == expand(
            "~/.config/skhd/"@ + original_name(last_segment(path@)),
            home_view(home),
        ),
        r.checksum@ == sha256_hex_of(content@),
        r.size_bytes == content@.len(),
        r.description is None,
{
    let name = file_name_of(path.as_str());
    let s = stem_of(name.as_str());
    let sv = chars_of(s.as_str());
    let n = sv.len();
    let cut = find_in(&sv, 0, n, '_');
    assert(sv@.subrange(0, n as int) =~= sv@);
    let prefix = string_of_range(&sv, 0, cut);
    let mut guess = String::from_str("~/.config/skhd/");
    guess.push_str(prefix.as_str());
    let original = expand_path(guess.as_str(), home);
    let checksum = sha256_hex(content);
    let size = content.len() as u64;
    Backup::new(path, original, checksum, size)
}

/// Inserts `x` before the first backup that is older than it.
pub open spec fn insert_newest(x: Backup, s: Seq<Backup>) -> Seq<Backup>
    decreases s.len(),
{
    if s.len() == 0 {
        seq![x]
    } else if lex_lt(s[0].created_at@, x.created_at@) {
        seq![x] + s
    } else {
        seq![s[0]] + insert_newest(x, s.drop_first())
    }
}

/// Backups ordered newest first by creation time; equal times keep their
/// order.
pub open spec fn newest_first(s: Seq<Backup>) -> Seq<Backup>
    decreases s.len(),
{
    if s.len() == 0 {
        s
    } else {
        insert_newest(s.last(), newest_first(s.drop_last()))
    }
}

proof fn lemma_insert_newest_at(x: Backup, s: Seq<Backup>, j: int)
    requires
        0 <= j <= s.len(),
        forall|k: int| 0 <= k < j ==> !lex_lt((#[trigger] s[k]).created_at@, x.created_at@),
        j < s.len() ==> lex_lt(s[j].created_at@, x.created_at@),
    ensures
        insert_newest(x, s) == s.insert(j, x),
    decreases s.len(),
{
    if s.len() == 0 {
        assert(s.insert(j, x) =~= seq![x]);
    } else if j == 0 {
        assert(s.insert(j, x) =~= seq![x] + s);
    } else {
        let t = s.drop_first();
        assert forall|k: int| 0 <= k < j - 1 implies !lex_lt((#[trigger] t[k]).created_at@, x.created_at@) by {
            assert(t[k] == s[k + 1]);
        }
        lemma_insert_newest_at(x, t, j - 1);
        assert(s.insert(j, x) =~= seq![s[0]] + t.insert(j - 1, x));
    }
}

/// Orders backups newest first.
pub fn sort_newest_first(v: Vec<Backup>) -> (r: Vec<Backup>)
    ensures
        r@ == newest_first(v@),
{
    let ghost orig = v@;
    let mut rest = v;
    let mut r: Vec<Backup> = Vec::new();
    let mut i: usize = 0;
    let n = rest.len();
    while rest.len() > 0
        invariant
            n == orig.len(),
            i + rest@.len() == n,
            rest@ == orig.subrange(i as int, n as int),
            r@ == newest_first(orig.subrange(0, i as int)),
        decreases rest@.len(),
    {
        let x = rest.remove(0);
        let mut j: usize = 0;
        while j < r.len() && !str_lt(r[j].created_at.as_str(), x.created_at.as_str())
            invariant
                j <= r@.len(),
                forall|k: int| 0 <= k < j ==> !lex_lt((#[trigger] r@[k]).created_at@, x.created_at@),
            decreases r@.len() - j,
        {
            j = j + 1;
        }
        proof {
            lemma_insert_newest_at(x, r@, j as int);
            let pre = orig.subrange(0, i as int + 1);
            assert(pre.drop_last() =~= orig.subrange(0, i as int));
            assert(pre.last() == x);
            assert(rest@ =~= orig.subrange(i as int + 1, n as int));
        }
        r.insert(j, x);
        i = i + 1;
    }
    assert(orig.subrange(0, n as int) =~= orig);
    r
}

} // verus!
