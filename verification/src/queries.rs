use vstd::prelude::*;
use vstd::utf8::encode_utf8;
use crate::database::{table_name, Pool};
use crate::text::{append_chars, replace_all, replace_seq, str_chars, string_from_chars};

verus! {

/// `n` question marks separated by commas: the placeholders of an `IN`
/// list.
pub open spec fn placeholders(n: nat) -> Seq<char>
    decreases n,
{
    if n == 0 {
        Seq::empty()
    } else if n == 1 {
        seq!['?']
    } else {
        placeholders((n - 1) as nat) + seq![',', '?']
    }
}

fn placeholder_list(n: usize) -> (r: Vec<char>)
    ensures
        r@ == placeholders(n as nat),
{
    let mut out: Vec<char> = Vec::new();
    let mut i: usize = 0;
    while i < n
        invariant
            0 <= i <= n,
            out@ == placeholders(i as nat),
        decreases n - i,
    {
        if i > 0 {
            out.push(',');
        }
        out.push('?');
        assert(out@ =~= placeholders((i + 1) as nat));
        i = i + 1;
    }
    out
}

fn finish(v: Vec<char>) -> (s: String)
    ensures
        s@ == v@,
{
    string_from_chars(&v)
}

/// The query that adds a text column.
pub fn add_column_query(pool: Pool, column: &str) -> (q: String)
    ensures
        q@ == "ALTER TABLE "@ + table_name(pool) + " ADD COLUMN "@ + column@ + " TEXT;"@,
{
    let mut v: Vec<char> = Vec::new();
    append_chars(&mut v, "ALTER TABLE ");
    append_chars(&mut v, pool.get_table_name());
    append_chars(&mut v, " ADD COLUMN ");
    append_chars(&mut v, column);
    append_chars(&mut v, " TEXT;");
    finish(v)
}

/// The query that the removal of a column sends.
pub fn remove_column_query(pool: Pool, column: &str) -> (q: String)
    ensures
        q@ == "ALTER TABLE "@ + table_name(pool) + " DROP COLUMN "@ + column@ + ";"@,
{
    let mut v: Vec<char> = Vec::new();
    append_chars(&mut v, "ALTER TABLE ");
    append_chars(&mut v, pool.get_table_name());
    append_chars(&mut v, " DROP COLUMN ");
    append_chars(&mut v, column);
    append_chars(&mut v, ";");
    finish(v)
}

/// The query that counts the records.
pub fn count_query(pool: Pool) -> (q: String)
    ensures
        q@ == "SELECT COUNT(*) FROM "@ + table_name(pool),
{
    let mut v: Vec<char> = Vec::new();
    append_chars(&mut v, "SELECT COUNT(*) FROM ");
    append_chars(&mut v, pool.get_table_name());
    finish(v)
}

/// The query that reads every record.
pub fn select_all_query(pool: Pool) -> (q: String)
    ensures
        q@ == "SELECT * FROM "@ + table_name(pool),
{
    let mut v: Vec<char> = Vec::new();
    append_chars(&mut v, "SELECT * FROM ");
    append_chars(&mut v, pool.get_table_name());
    finish(v)
}

/// The query that lists the columns.
pub fn columns_query(pool: Pool) -> (q: String)
    ensures
        q@ == "PRAGMA table_info("@ + table_name(pool) + ");"@,
{
    let mut v: Vec<char> = Vec::new();
    append_chars(&mut v, "PRAGMA table_info(");
    append_chars(&mut v, pool.get_table_name());
    append_chars(&mut v, ");");
    finish(v)
}

/// The query that marks `n` records as mono.
pub fn mono_update_query(pool: Pool, n: usize) -> (q: String)
    ensures
        q@ == "UPDATE "@ + table_name(pool) + " SET Channels = 1, _Dirty = 1 WHERE recid IN ("@
            + placeholders(n as nat) + ")"@,
{
    let mut v: Vec<char> = Vec::new();
    append_chars(&mut v, "UPDATE ");
    append_chars(&mut v, pool.get_table_name());
    append_chars(&mut v, " SET Channels = 1, _Dirty = 1 WHERE recid IN (");
    let ph = placeholder_list(n);
    let ph_s = string_from_chars(&ph);
    append_chars(&mut v, ph_s.as_str());
    append_chars(&mut v, ")");
    finish(v)
}

/// The query that sets a column of `n` records to a value.
pub fn column_update_query(pool: Pool, column: &str, value: &str, n: usize) -> (q: String)
    ensures
        q@ == "UPDATE "@ + table_name(pool) + " SET "@ + column@ + " = "@ + value@
            + " WHERE recid IN ("@ + placeholders(n as nat) + ")"@,
{
    let mut v: Vec<char> = Vec::new();
    append_chars(&mut v, "UPDATE ");
    append_chars(&mut v, pool.get_table_name());
    append_chars(&mut v, " SET ");
    append_chars(&mut v, column);
    append_chars(&mut v, " = ");
    append_chars(&mut v, value);
    append_chars(&mut v, " WHERE recid IN (");
    let ph = placeholder_list(n);
    let ph_s = string_from_chars(&ph);
    append_chars(&mut v, ph_s.as_str());
    append_chars(&mut v, ")");
    finish(v)
}

/// The query that deletes `n` records.
pub fn delete_query(pool: Pool, n: usize) -> (q: String)
    ensures
        q@ == "DELETE FROM "@ + table_name(pool) + " WHERE recid IN ("@ + placeholders(n as nat)
            + ")"@,
{
    let mut v: Vec<char> = Vec::new();
    append_chars(&mut v, "DELETE FROM ");
    append_chars(&mut v, pool.get_table_name());
    append_chars(&mut v, " WHERE recid IN (");
    let ph = placeholder_list(n);
    let ph_s = string_from_chars(&ph);
    append_chars(&mut v, ph_s.as_str());
    append_chars(&mut v, ")");
    finish(v)
}

/// The query that stores one value of a column for one record.
pub fn store_query(table: &str, column: &str) -> (q: String)
    ensures
        q@ == "UPDATE "@ + table@ + " SET "@ + column@ + " = ? WHERE recid = ?"@,
{
    let mut v: Vec<char> = Vec::new();
    append_chars(&mut v, "UPDATE ");
    append_chars(&mut v, table);
    append_chars(&mut v, " SET ");
    append_chars(&mut v, column);
    append_chars(&mut v, " = ? WHERE recid = ?");
    finish(v)
}

/// The name that progress messages give a column: without a leading `_`.
pub fn column_display_name(column: &str) -> (r: String)
    ensures
        r@ == if column@.len() > 0 && column@[0] == '_' {
            column@.drop_first()
        } else {
            column@
        },
{
    let v = str_chars(column);
    if v.len() > 0 && v[0] == '_' {
        let t = crate::text::slice_from(&v, 1, v.len());
        assert(t@ =~= v@.drop_first());
        string_from_chars(&t)
    } else {
        column.to_string()
    }
}

/// Whether `r` lists the batches of `size` in which `len` ids are sent, as
/// `chunks(size)` cuts them: batch `k` runs from `k * size` to the next
/// multiple of `size`, the last one to `len`.
pub open spec fn batches_of(r: Seq<(usize, usize)>, len: int, size: int) -> bool {
    &&& r.len() == if len == 0 {
        0
    } else {
        (len - 1) / size + 1
    }
    &&& forall|k: int|
        0 <= k < r.len() ==> (#[trigger] r[k]).0 == k * size && r[k].1 == if (k + 1) * size < len {
            (k + 1) * size
        } else {
            len
        }
}

/// Cuts `len` ids into batches of `size`, as `chunks(size)` does.
pub fn batches(len: usize, size: usize) -> (r: Vec<(usize, usize)>)
    requires
        size > 0,
    ensures
        batches_of(r@, len as int, size as int),
{
    let mut out: Vec<(usize, usize)> = Vec::new();
    if len == 0 {
        return out;
    }
    let mut start: usize = 0;
    let ghost mut k: int = 0;
    loop
        invariant_except_break
            start == k * size,
            start < len,
            0 <= k,
            size > 0,
            out@.len() == k,
            forall|j: int| 0 <= j < k ==> (#[trigger] out@[j]).0 == j * size && out@[j].1 == (j + 1) * size
                && (j + 1) * size < len,
        ensures
            batches_of(out@, len as int, size as int),
        decreases len - start,
    {
        proof {
            assert((k + 1) * size == k * size + size) by (nonlinear_arith);
        }
        if len - start > size {
            out.push((start, start + size));
            start = start + size;
            proof {
                k = k + 1;
            }
        } else {
            out.push((start, len));
            proof {
                assert((len - 1) / (size as int) + 1 == k + 1) by (nonlinear_arith)
                    requires
                        size > 0,
                        k * size < len,
                        len <= k * size + size,
                        k >= 0,
                ;
            }
            break;
        }
    }
    out
}

/// The decimal digits of a natural number.
pub open spec fn digits_of(n: nat) -> Seq<char>
    decreases n,
{
    if n < 10 {
        seq![(48 + n) as char]
    } else {
        digits_of(n / 10) + seq![(48 + n % 10) as char]
    }
}

/// An integer in decimal, with `-` before a negative one.
pub open spec fn decimal(v: int) -> Seq<char> {
    if v < 0 {
        seq!['-'] + digits_of((-v) as nat)
    } else {
        digits_of(v as nat)
    }
}

fn push_digits(out: &mut Vec<char>, n: u128)
    ensures
        final(out)@ == old(out)@ + digits_of(n as nat),
    decreases n,
{
    if n >= 10 {
        push_digits(out, n / 10);
    }
    let d: u8 = (n % 10) as u8;
    out.push((48 + d) as char);
    proof {
        if n >= 10 {
            assert(digits_of(n as nat) == digits_of((n / 10) as nat) + seq![(48 + n % 10) as char]);
        }
    }
}

/// Writes an integer in decimal.
pub fn push_decimal(out: &mut Vec<char>, v: i64)
    ensures
        final(out)@ == old(out)@ + decimal(v as int),
{
    if v < 0 {
        out.push('-');
        let m: u128 = (-(v as i128)) as u128;
        push_digits(out, m);
        assert(final(out)@ =~= old(out)@ + decimal(v as int));
    } else {
        push_digits(out, v as u128);
    }
}

/// The query that stores the path hashes of some records in one go: a
/// `CASE` with one `WHEN <recid> THEN '<hash>'` per record, limited to those
/// records.
pub open spec fn hash_update_text(table: Seq<char>, entries: Seq<(i64, String)>) -> Seq<char> {
    "UPDATE "@ + table + " SET _FilePathHash = CASE recid "@ + when_clauses(entries) + "END WHERE recid IN ("@
        + id_list(entries) + ")"@
}

/// `WHEN <recid> THEN '<hash>' ` for each record.
pub open spec fn when_clauses(entries: Seq<(i64, String)>) -> Seq<char>
    decreases entries.len(),
{
    if entries.len() == 0 {
        Seq::empty()
    } else {
        when_clauses(entries.drop_last()) + "WHEN "@ + decimal(entries.last().0 as int) + " THEN '"@
            + entries.last().1@ + "' "@
    }
}

/// The record ids, separated by `, `.
pub open spec fn id_list(entries: Seq<(i64, String)>) -> Seq<char>
    decreases entries.len(),
{
    if entries.len() == 0 {
        Seq::empty()
    } else if entries.len() == 1 {
        decimal(entries[0].0 as int)
    } else {
        id_list(entries.drop_last()) + ", "@ + decimal(entries.last().0 as int)
    }
}

/// The query that stores the path hashes of some records.
pub fn hash_update_query(table: &str, entries: &[(i64, String)]) -> (q: String)
    ensures
        q@ == hash_update_text(table@, entries@),
{
    let mut v: Vec<char> = Vec::new();
    append_chars(&mut v, "UPDATE ");
    append_chars(&mut v, table);
    append_chars(&mut v, " SET _FilePathHash = CASE recid ");
    let ghost start = v@;
    let mut i: usize = 0;
    while i < entries.len()
        invariant
            0 <= i <= entries.len(),
            v@ == start + when_clauses(entries@.take(i as int)),
        decreases entries.len() - i,
    {
        let ghost before = v@;
        append_chars(&mut v, "WHEN ");
        push_decimal(&mut v, entries[i].0);
        append_chars(&mut v, " THEN '");
        append_chars(&mut v, entries[i].1.as_str());
        append_chars(&mut v, "' ");
        proof {
            assert(entries@.take(i + 1).drop_last() =~= entries@.take(i as int));
            assert(entries@.take(i + 1).last() == entries@[i as int]);
            assert(v@ =~= start + when_clauses(entries@.take(i + 1)));
        }
        i = i + 1;
    }
    assert(entries@.take(i as int) =~= entries@);
    append_chars(&mut v, "END WHERE recid IN (");
    let ghost mid = v@;
    let mut j: usize = 0;
    while j < entries.len()
        invariant
            0 <= j <= entries.len(),
            v@ == mid + id_list(entries@.take(j as int)),
        decreases entries.len() - j,
    {
        if j > 0 {
            append_chars(&mut v, ", ");
        }
        push_decimal(&mut v, entries[j].0);
        proof {
            assert(entries@.take(j + 1).drop_last() =~= entries@.take(j as int));
            assert(entries@.take(j + 1).last() == entries@[j as int]);
            if j == 0 {
                assert(entries@.take(1)[0] == entries@[0]);
            }
            assert(v@ =~= mid + id_list(entries@.take(j + 1)));
        }
        j = j + 1;
    }
    assert(entries@.take(j as int) =~= entries@);
    append_chars(&mut v, ")");
    assert(v@ =~= hash_update_text(table@, entries@));
    finish(v)
}

/// The comparison that a metadata search or replacement uses: `GLOB` when
/// case matters, `LIKE` when it does not.
pub fn case_text(case_sensitive: bool) -> (s: &'static str)
    ensures
        s@ == if case_sensitive {
            "GLOB"@
        } else {
            "LIKE"@
        },
{
    if case_sensitive {
        "GLOB"
    } else {
        "LIKE"
    }
}

/// The pattern bound to a metadata search: the text between `*` wildcards
/// for `GLOB`, between `%` wildcards for `LIKE`.
pub fn search_pattern(find: &str, case_sensitive: bool) -> (s: String)
    ensures
        s@ == if case_sensitive {
            seq!['*'] + find@ + seq!['*']
        } else {
            seq!['%'] + find@ + seq!['%']
        },
{
    let w = if case_sensitive {
        '*'
    } else {
        '%'
    };
    let mut v: Vec<char> = Vec::new();
    v.push(w);
    append_chars(&mut v, find);
    v.push(w);
    finish(v)
}

/// Whether a column holds a file's path or name, whose replacement marks
/// the record for renaming on disk.
pub open spec fn is_path_column(c: Seq<char>) -> bool {
    c == "Filename"@ || c == "FilePath"@ || c == "Pathname"@
}

fn is_path_column_exec(c: &str) -> (b: bool)
    ensures
        b == is_path_column(c@),
{
    crate::text::str_eq(c, "Filename") || crate::text::str_eq(c, "FilePath") || crate::text::str_eq(
        c,
        "Pathname",
    )
}

/// The extra assignment of a replacement that marks records as changed on
/// disk: only for a path column, and only when asked for.
pub fn dirty_text(mark_dirty: bool, column: &str) -> (s: &'static str)
    ensures
        s@ == if mark_dirty && is_path_column(column@) {
            ", _Dirty = 1"@
        } else {
            ""@
        },
{
    if mark_dirty && is_path_column_exec(column) {
        ", _Dirty = 1"
    } else {
        ""
    }
}

/// The query that a metadata search sends.
pub fn find_query(table: &str, column: &str, case_sensitive: bool) -> (q: String)
    ensures
        q@ == "SELECT recid, filepath, duration, _fingerprint, description, channels, bitdepth, samplerate, _DualMono  FROM "@
            + table@ + " WHERE "@ + column@ + " "@ + (if case_sensitive {
            "GLOB"@
        } else {
            "LIKE"@
        }) + " ?"@,
{
    let mut v: Vec<char> = Vec::new();
    append_chars(
        &mut v,
        "SELECT recid, filepath, duration, _fingerprint, description, channels, bitdepth, samplerate, _DualMono  FROM ",
    );
    append_chars(&mut v, table);
    append_chars(&mut v, " WHERE ");
    append_chars(&mut v, column);
    append_chars(&mut v, " ");
    append_chars(&mut v, case_text(case_sensitive));
    append_chars(&mut v, " ?");
    finish(v)
}

/// The query that replaces text in the path columns: file path, file name
/// and path name, of the records where one of them matches.
pub open spec fn path_replace_text(table: Seq<char>, find: Seq<char>, rep: Seq<char>, dirty: Seq<char>, case: Seq<char>) -> Seq<char> {
    "UPDATE "@ + table + " SET \n                FilePath = REPLACE(FilePath, '"@ + find + "', '"@ + rep
        + "'),\n                Filename = REPLACE(Filename, '"@ + find + "', '"@ + rep
        + "'),\n                Pathname = REPLACE(Pathname, '"@ + find + "', '"@ + rep + "')"@ + dirty
        + " \n            WHERE Filename "@ + case + " ? OR FilePath "@ + case + " ? OR Pathname "@ + case
        + " ?"@
}

/// The query that replaces text in the path columns.
pub fn path_replace_query(table: &str, find: &str, rep: &str, dirty: &str, case: &str) -> (q: String)
    ensures
        q@ == path_replace_text(table@, find@, rep@, dirty@, case@),
{
    let mut v: Vec<char> = Vec::new();
    append_chars(&mut v, "UPDATE ");
    append_chars(&mut v, table);
    append_chars(&mut v, " SET \n                FilePath = REPLACE(FilePath, '");
    append_chars(&mut v, find);
    append_chars(&mut v, "', '");
    append_chars(&mut v, rep);
    append_chars(&mut v, "'),\n                Filename = REPLACE(Filename, '");
    append_chars(&mut v, find);
    append_chars(&mut v, "', '");
    append_chars(&mut v, rep);
    append_chars(&mut v, "'),\n                Pathname = REPLACE(Pathname, '");
    append_chars(&mut v, find);
    append_chars(&mut v, "', '");
    append_chars(&mut v, rep);
    append_chars(&mut v, "')");
    append_chars(&mut v, dirty);
    append_chars(&mut v, " \n            WHERE Filename ");
    append_chars(&mut v, case);
    append_chars(&mut v, " ? OR FilePath ");
    append_chars(&mut v, case);
    append_chars(&mut v, " ? OR Pathname ");
    append_chars(&mut v, case);
    append_chars(&mut v, " ?");
    finish(v)
}

/// The query that replaces text in the path name table.
pub fn pathname_table_query(find: &str, rep: &str, case: &str) -> (q: String)
    ensures
        q@ == "UPDATE justinrdb_Pathname SET Pathname = REPLACE(Pathname, '"@ + find@ + "', '"@ + rep@
            + "') WHERE Pathname "@ + case@ + " ?"@,
{
    let mut v: Vec<char> = Vec::new();
    append_chars(&mut v, "UPDATE justinrdb_Pathname SET Pathname = REPLACE(Pathname, '");
    append_chars(&mut v, find);
    append_chars(&mut v, "', '");
    append_chars(&mut v, rep);
    append_chars(&mut v, "') WHERE Pathname ");
    append_chars(&mut v, case);
    append_chars(&mut v, " ?");
    finish(v)
}

/// The query that replaces text in any other column.
pub fn column_replace_query(table: &str, column: &str, find: &str, rep: &str, dirty: &str, case: &str) -> (q: String)
    ensures
        q@ == "UPDATE "@ + table@ + " SET "@ + column@ + " = REPLACE("@ + column@ + ", '"@ + find@ + "', '"@
            + rep@ + "')"@ + dirty@ + " WHERE "@ + column@ + " "@ + case@ + " ?"@,
{
    let mut v: Vec<char> = Vec::new();
    append_chars(&mut v, "UPDATE ");
    append_chars(&mut v, table);
    append_chars(&mut v, " SET ");
    append_chars(&mut v, column);
    append_chars(&mut v, " = REPLACE(");
    append_chars(&mut v, column);
    append_chars(&mut v, ", '");
    append_chars(&mut v, find);
    append_chars(&mut v, "', '");
    append_chars(&mut v, rep);
    append_chars(&mut v, "')");
    append_chars(&mut v, dirty);
    append_chars(&mut v, " WHERE ");
    append_chars(&mut v, column);
    append_chars(&mut v, " ");
    append_chars(&mut v, case);
    append_chars(&mut v, " ?");
    finish(v)
}

/// The query that reads the records whose path columns match after a
/// replacement.
pub fn replaced_paths_query(table: &str, case: &str) -> (q: String)
    ensures
        q@ == "SELECT recid, FilePath FROM "@ + table@ + " WHERE Filename "@ + case@ + " ? OR FilePath "@
            + case@ + " ? OR Pathname "@ + case@ + " ?"@,
{
    let mut v: Vec<char> = Vec::new();
    append_chars(&mut v, "SELECT recid, FilePath FROM ");
    append_chars(&mut v, table);
    append_chars(&mut v, " WHERE Filename ");
    append_chars(&mut v, case);
    append_chars(&mut v, " ? OR FilePath ");
    append_chars(&mut v, case);
    append_chars(&mut v, " ? OR Pathname ");
    append_chars(&mut v, case);
    append_chars(&mut v, " ?");
    finish(v)
}

/// Whether a metadata replacement goes to the path columns.
pub fn replaces_paths(column: &str) -> (b: bool)
    ensures
        b == is_path_column(column@),
{
    is_path_column_exec(column)
}

/// The SHA-1 digest of `data`, as the `sha1` crate computes it.
pub uninterp spec fn sha1_digest(data: Seq<u8>) -> Seq<u8>;

/// `sha1::Sha1::digest`: the 20-byte SHA-1 digest of `data`, named as
/// `sha1_digest`.
#[verifier::external_body]
fn sha1(data: &[u8]) -> (r: Vec<u8>)
    ensures
        r@ == sha1_digest(data@),
        r@.len() == 20,
{
    <sha1::Sha1 as sha1::Digest>::digest(data).to_vec()
}

/// The lowercase hexadecimal digit of a value below 16.
pub open spec fn hex_digit_lower(v: int) -> char {
    if v < 10 {
        (48 + v) as char
    } else {
        (87 + v) as char
    }
}

/// The bytes written as lowercase hexadecimal, two digits each.
pub open spec fn hex_lower(bytes: Seq<u8>) -> Seq<char>
    decreases bytes.len(),
{
    if bytes.len() == 0 {
        Seq::empty()
    } else {
        hex_lower(bytes.drop_last()) + seq![
            hex_digit_lower(bytes.last() as int / 16),
            hex_digit_lower(bytes.last() as int % 16),
        ]
    }
}

/// The hash stored for a file path: the SHA-1 digest of its UTF-8 bytes in
/// lowercase hexadecimal.
pub open spec fn path_hash_text(path: Seq<char>) -> Seq<char> {
    hex_lower(sha1_digest(encode_utf8(path)))
}

fn hex_digit_lower_exec(v: u8) -> (c: char)
    requires
        v < 16,
    ensures
        c == hex_digit_lower(v as int),
{
    if v < 10 {
        (48 + v) as char
    } else {
        (87 + v) as char
    }
}

/// The hash stored for a file path.
pub fn path_hash(file_path: &str) -> (h: String)
    ensures
        h@ == path_hash_text(file_path@),
{
    let digest = sha1(file_path.as_bytes());
    let mut out: Vec<char> = Vec::new();
    let mut i: usize = 0;
    assert(digest@.take(0) =~= Seq::<u8>::empty());
    while i < digest.len()
        invariant
            0 <= i <= digest.len(),
            out@ == hex_lower(digest@.take(i as int)),
        decreases digest.len() - i,
    {
        let b = digest[i];
        out.push(hex_digit_lower_exec(b / 16));
        out.push(hex_digit_lower_exec(b % 16));
        proof {
            let t = digest@.take(i + 1);
            assert(t.drop_last() =~= digest@.take(i as int));
            assert(t.last() == b);
        }
        i = i + 1;
    }
    assert(digest@.take(i as int) =~= digest@);
    string_from_chars(&out)
}

/// The new path hashes of the records that a replacement reached, given as
/// record id and file path: each id with the hash of its path.
pub fn path_hashes(rows: &Vec<(i64, String)>) -> (r: Vec<(i64, String)>)
    ensures
        r@.len() == rows@.len(),
        forall|i: int|
            0 <= i < rows@.len() ==> (#[trigger] r@[i]).0 == rows@[i].0 && r@[i].1@ == path_hash_text(
                rows@[i].1@,
            ),
{
    let mut r: Vec<(i64, String)> = Vec::new();
    let mut i: usize = 0;
    while i < rows.len()
        invariant
            0 <= i <= rows.len(),
            r@.len() == i,
            forall|j: int|
                0 <= j < i ==> (#[trigger] r@[j]).0 == rows@[j].0 && r@[j].1@ == path_hash_text(
                    rows@[j].1@,
                ),
        decreases rows.len() - i,
    {
        let h = path_hash(rows[i].1.as_str());
        r.push((rows[i].0, h));
        i = i + 1;
    }
    r
}

} // verus!
