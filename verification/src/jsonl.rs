//! The export and import engines over the backup file format.
//!
//! Export serializes a metadata header line followed by one record line per
//! prompt. Import line-scans a file, recognizes an optional header on the
//! first non-blank line, decodes every other non-blank line as a record,
//! and replaces store contents through one bulk upsert. Both advance the
//! store's data-version marker only after their primary effect.
//!
//! File input and output stay with the caller: the engines here compute the
//! exact file text and consume it, so everything between the bytes and the
//! store is verified.

use vstd::prelude::*;

use crate::chars::chars_of;
use crate::chars::string_of;
use crate::chars::trim;
use crate::chars::trim_chars;
use crate::codec::enc_meta;
use crate::codec::enc_prompt;
use crate::codec::encode_prompt_line;
use crate::codec::is_header_line;
use crate::codec::lemma_enc_meta_clean;
use crate::codec::lemma_enc_prompt_clean;
use crate::codec::lemma_enc_prompt_not_header;
use crate::codec::lemma_enc_meta_is_header;
use crate::codec::lemma_p_meta_enc;
use crate::codec::lemma_p_record_enc;
use crate::codec::line_is_header;
use crate::codec::no_nl;
use crate::codec::p_meta;
use crate::codec::p_record;
use crate::codec::p_uint;
use crate::codec::parse_int_at;
use crate::codec::parse_record_line;
use crate::codec::parse_string_at;
use crate::codec::parse_uint_at;
use crate::codec::expect_lit;
use crate::codec::push_enc_string;
use crate::codec::push_int;
use crate::codec::push_uint;
use crate::codec::MetaV;
use crate::prompt::Prompt;
use crate::prompt::PromptV;
use crate::store::ids_distinct;
use crate::store::upsert_all;
use crate::store::Store;
use crate::store::SCHEMA_VERSION;

verus! {

/// The metadata carried by the header line of one export snapshot.
pub struct MetaInfo {
    pub version: String,
    pub count: usize,
    pub exported_at: String,
    pub schema_version: i32,
}

impl View for MetaInfo {
    type V = MetaV;

    open spec fn view(&self) -> MetaV {
        MetaV {
            version: self.version@,
            count: self.count as nat,
            exported_at: self.exported_at@,
            schema_version: self.schema_version as int,
        }
    }
}

/// The header record as it stands in the file: the metadata wrapped under
/// the reserved `_meta` key.
pub struct JsonlMeta {
    pub meta: MetaInfo,
}

impl View for JsonlMeta {
    type V = MetaV;

    open spec fn view(&self) -> MetaV {
        self.meta@
    }
}

/// An import failure: the 1-based number of the offending line.
#[derive(Debug)]
pub struct ImportError {
    pub line: usize,
}

/// The reserved metadata key holding the data-version marker.
pub open spec fn dv_key() -> Seq<char> {
    "data_version"@
}

// ---------------------------------------------------------------------------
// Trusted clock
// ---------------------------------------------------------------------------
/// Relies on `chrono::Utc::now` and `chrono::DateTime::to_rfc3339`: the
/// current time as an RFC 3339 string. Nothing further is assumed of the
/// value, since it depends on the clock.
#[verifier::external_body]
fn now_rfc3339() -> (r: String)
    ensures
        r@.len() > 0,
{
    chrono::Utc::now().to_rfc3339()
}

// ---------------------------------------------------------------------------
// Header line: executable codec
// ---------------------------------------------------------------------------
/// Encodes the header as its canonical line.
pub fn encode_meta_line(m: &MetaInfo) -> (out: Vec<char>)
    ensures
        out@ == enc_meta(m@),
{
    let mut out: Vec<char> = Vec::new();
    crate::chars::push_chars_of(&mut out, "{\"_meta\":{\"version\":");
    push_enc_string(&mut out, m.version.as_str());
    crate::chars::push_chars_of(&mut out, ",\"count\":");
    push_uint(&mut out, m.count as u64);
    crate::chars::push_chars_of(&mut out, ",\"exported_at\":");
    push_enc_string(&mut out, m.exported_at.as_str());
    crate::chars::push_chars_of(&mut out, ",\"schema_version\":");
    push_int(&mut out, m.schema_version);
    crate::chars::push_chars_of(&mut out, "}}");
    proof {
        assert((m.count as u64) as nat == m.count as nat);
        assert(out@ =~= enc_meta(m@));
    }
    out
}

/// Parses a whole trimmed line as a canonical header line.
#[verifier::rlimit(100)]
#[verifier::spinoff_prover]
pub fn parse_meta_line(t: &Vec<char>) -> (r: Option<JsonlMeta>)
    ensures
        match r {
            Some(m) => p_meta(t@) == Some(m@),
            None => p_meta(t@) is None,
        },
{
    proof {
        assert(t@.skip(0) =~= t@);
    }
    let j1 = match expect_lit(t, 0, "{\"_meta\":{\"version\":") {
        Some(j) => j,
        None => {
            return None;
        },
    };
    let (version, j2) = match parse_string_at(t, j1) {
        Some(x) => x,
        None => {
            return None;
        },
    };
    let j3 = match expect_lit(t, j2, ",\"count\":") {
        Some(j) => j,
        None => {
            return None;
        },
    };
    let (count_u, j4) = match parse_uint_at(t, j3) {
        Some(x) => x,
        None => {
            proof {
                match p_uint(t@.skip(j3 as int)) {
                    Some((n, r2)) => {
                        assert(n > usize::MAX as nat);
                    },
                    None => {},
                }
            }
            return None;
        },
    };
    if count_u > usize::MAX as u64 {
        return None;
    }
    let count: usize = count_u as usize;
    let j5 = match expect_lit(t, j4, ",\"exported_at\":") {
        Some(j) => j,
        None => {
            return None;
        },
    };
    let (exported_at, j6) = match parse_string_at(t, j5) {
        Some(x) => x,
        None => {
            return None;
        },
    };
    let j7 = match expect_lit(t, j6, ",\"schema_version\":") {
        Some(j) => j,
        None => {
            return None;
        },
    };
    let (schema_version, j8) = match parse_int_at(t, j7) {
        Some(x) => x,
        None => {
            return None;
        },
    };
    proof {
        reveal_strlit("}}");
        assert(t@.skip(j8 as int).len() == t@.len() - j8);
        if j8 < t@.len() {
            assert(t@.skip(j8 as int)[0] == t@[j8 as int]);
        }
        if j8 + 1 < t@.len() {
            assert(t@.skip(j8 as int)[1] == t@[j8 + 1]);
        }
    }
    if j8 < t.len() && t.len() - j8 == 2 && t[j8] == '}' && t[j8 + 1] == '}' {
        proof {
            assert(t@.skip(j8 as int) =~= "}}"@);
        }
        let m = JsonlMeta { meta: MetaInfo { version, count, exported_at, schema_version } };
        proof {
            assert(m@ =~= (MetaV {
                version: version@,
                count: count as nat,
                exported_at: exported_at@,
                schema_version: schema_version as int,
            }));
        }
        Some(m)
    } else {
        proof {
            let t8 = t@.skip(j8 as int);
            if t8 =~= "}}"@ {
                assert(t8.len() == 2);
                assert(t8[0] == '}');
                assert(t8[1] == '}');
                assert(false);
            }
        }
        None
    }
}

// ---------------------------------------------------------------------------
// File text: specification
// ---------------------------------------------------------------------------
/// Index of the first newline, or `-1`.
pub open spec fn first_nl(t: Seq<char>) -> int
    decreases t.len(),
{
    if t.len() == 0 {
        -1
    } else if t[0] == '\n' {
        0
    } else {
        let r = first_nl(t.drop_first());
        if r == -1 {
            -1
        } else {
            r + 1
        }
    }
}

/// The lines of a text, split on newline characters.
pub open spec fn split_lines(t: Seq<char>) -> Seq<Seq<char>>
    decreases t.len(),
{
    let i = first_nl(t);
    if 0 <= i < t.len() {
        seq![t.take(i)] + split_lines(t.skip(i + 1))
    } else {
        seq![t]
    }
}

/// What `first_nl` returns: the first newline's index, or `-1`.
proof fn lemma_first_nl(t: Seq<char>)
    ensures
        first_nl(t) == -1 ==> forall|i: int| 0 <= i < t.len() ==> #[trigger] t[i] != '\n',
        first_nl(t) != -1 ==> 0 <= first_nl(t) < t.len() && t[first_nl(t)] == '\n' && forall|
            i: int,
        | 0 <= i < first_nl(t) ==> #[trigger] t[i] != '\n',
    decreases t.len(),
{
    if t.len() > 0 && t[0] != '\n' {
        let u = t.drop_first();
        lemma_first_nl(u);
        assert(forall|i: int| 0 <= i < u.len() ==> #[trigger] u[i] == t[i + 1]);
        if first_nl(t) == -1 {
            assert forall|i: int| 0 <= i < t.len() implies #[trigger] t[i] != '\n' by {
                if i > 0 {
                    assert(u[i - 1] == t[i]);
                }
            }
        } else {
            let r = first_nl(u);
            assert(u[r] == t[r + 1]);
            assert forall|i: int| 0 <= i < r + 1 implies #[trigger] t[i] != '\n' by {
                if i > 0 {
                    assert(u[i - 1] == t[i]);
                }
            }
        }
    }
}

/// Splitting after one newline-terminated, newline-free line peels it off.
proof fn lemma_split_prefix(x: Seq<char>, rest: Seq<char>)
    requires
        no_nl(x),
    ensures
        split_lines(x + seq!['\n'] + rest) == seq![x] + split_lines(rest),
{
    let t = x + seq!['\n'] + rest;
    lemma_first_nl(t);
    assert(t[x.len() as int] == '\n');
    if first_nl(t) == -1 {
        assert(false);
    }
    let i = first_nl(t);
    if i < x.len() {
        assert(t[i] == x[i]);
        assert(false);
    }
    if i > x.len() {
        assert(t[x.len() as int] != '\n');
        assert(false);
    }
    assert(i == x.len());
    assert(t.take(i) =~= x);
    assert(t.skip(i + 1) =~= rest);
}

/// The import scan over the lines of a file, from line index `i`.
pub open spec fn import_lines_from(
    lines: Seq<Seq<char>>,
    i: int,
    seen: bool,
    acc: Seq<PromptV>,
) -> Result<Seq<PromptV>, int>
    decreases lines.len() - i,
{
    if i < 0 || i >= lines.len() {
        Ok(acc)
    } else {
        let l = trim(lines[i]);
        if l.len() == 0 {
            import_lines_from(lines, i + 1, seen, acc)
        } else if !seen && is_header_line(l) {
            match p_meta(l) {
                Some(m) => import_lines_from(lines, i + 1, true, acc),
                None => Err(i + 1),
            }
        } else {
            match p_record(l) {
                Some(p) => import_lines_from(lines, i + 1, true, acc.push(p)),
                None => Err(i + 1),
            }
        }
    }
}

/// What import makes of a file: the record sequence it holds, or the
/// 1-based number of its first bad line.
pub open spec fn spec_import(text: Seq<char>) -> Result<Seq<PromptV>, int> {
    import_lines_from(split_lines(text), 0, false, Seq::empty())
}

/// The record lines of an export, each newline-terminated.
pub open spec fn export_records_text(ps: Seq<PromptV>) -> Seq<char>
    decreases ps.len(),
{
    if ps.len() == 0 {
        Seq::empty()
    } else {
        enc_prompt(ps[0]) + seq!['\n'] + export_records_text(ps.drop_first())
    }
}

/// The full text of an export: header line, then one line per record.
pub open spec fn spec_export_text(ps: Seq<PromptV>, m: MetaV) -> Seq<char> {
    enc_meta(m) + seq!['\n'] + export_records_text(ps)
}

// ---------------------------------------------------------------------------
// Laws
// ---------------------------------------------------------------------------
/// Scanning one line shifts the index: a peeled-off first line is behind.
proof fn lemma_import_shift(
    x: Seq<char>,
    rest: Seq<Seq<char>>,
    i: int,
    seen: bool,
    acc: Seq<PromptV>,
)
    requires
        0 <= i,
    ensures
        match import_lines_from(rest, i, seen, acc) {
            Ok(v) => import_lines_from(seq![x] + rest, i + 1, seen, acc) == Ok::<
                Seq<PromptV>,
                int,
            >(v),
            Err(ln) => import_lines_from(seq![x] + rest, i + 1, seen, acc) == Err::<
                Seq<PromptV>,
                int,
            >(ln + 1),
        },
    decreases rest.len() - i,
{
    let lines = seq![x] + rest;
    if i >= rest.len() {
    } else {
        assert(lines[i + 1] == rest[i]);
        let l = trim(rest[i]);
        if l.len() == 0 {
            lemma_import_shift(x, rest, i + 1, seen, acc);
        } else if !seen && is_header_line(l) {
            match p_meta(l) {
                Some(m) => {
                    lemma_import_shift(x, rest, i + 1, true, acc);
                },
                None => {},
            }
        } else {
            match p_record(l) {
                Some(p) => {
                    lemma_import_shift(x, rest, i + 1, true, acc.push(p));
                },
                None => {},
            }
        }
    }
}

/// Importing the record lines of an export appends exactly those records.
#[verifier::rlimit(100)]
#[verifier::spinoff_prover]
proof fn lemma_import_records_text(ps: Seq<PromptV>, acc: Seq<PromptV>)
    ensures
        import_lines_from(split_lines(export_records_text(ps)), 0, true, acc) == Ok::<
            Seq<PromptV>,
            int,
        >(acc + ps),
    decreases ps.len(),
{
    if ps.len() == 0 {
        let t = export_records_text(ps);
        assert(t.len() == 0);
        lemma_first_nl(t);
        assert(first_nl(t) == -1);
        assert(split_lines(t) == seq![t]);
        assert(trim(t).len() == 0);
        assert(import_lines_from(seq![t], 0, true, acc) == import_lines_from(
            seq![t],
            1,
            true,
            acc,
        ));
        assert(acc + ps =~= acc);
    } else {
        let p0 = ps[0];
        let x = enc_prompt(p0);
        let rest_text = export_records_text(ps.drop_first());
        lemma_enc_prompt_clean(p0);
        lemma_split_prefix(x, rest_text);
        let lines = seq![x] + split_lines(rest_text);
        assert(split_lines(export_records_text(ps)) == lines);
        assert(lines[0] == x);
        crate::chars::lemma_trim_noop(x);
        assert(trim(x) == x);
        assert(x.len() > 0);
        lemma_enc_prompt_not_header(p0);
        lemma_p_record_enc(p0);
        assert(import_lines_from(lines, 0, true, acc) == import_lines_from(
            lines,
            1,
            true,
            acc.push(p0),
        ));
        lemma_import_shift(x, split_lines(rest_text), 0, true, acc.push(p0));
        lemma_import_records_text(ps.drop_first(), acc.push(p0));
        assert(acc.push(p0) + ps.drop_first() =~= acc + ps);
    }
}

/// Round trip: a file written by export, imported into any store, yields
/// exactly the exported record set, in order; imported into a fresh store,
/// it restores exactly that record set.
pub proof fn lemma_export_import_round_trip(ps: Seq<PromptV>, m: MetaV)
    requires
        ids_distinct(ps),
        m.count <= usize::MAX as nat,
        i32::MIN as int <= m.schema_version <= i32::MAX as int,
    ensures
        spec_import(spec_export_text(ps, m)) == Ok::<Seq<PromptV>, int>(ps),
        upsert_all(Seq::empty(), ps) == ps,
{
    let x = enc_meta(m);
    let rest_text = export_records_text(ps);
    lemma_enc_meta_clean(m);
    lemma_split_prefix(x, rest_text);
    let lines = seq![x] + split_lines(rest_text);
    assert(split_lines(spec_export_text(ps, m)) == lines);
    assert(lines[0] == x);
    crate::chars::lemma_trim_noop(x);
    assert(trim(x) == x);
    assert(x.len() > 0);
    lemma_enc_meta_is_header(m);
    lemma_p_meta_enc(m);
    assert(import_lines_from(lines, 0, false, Seq::empty()) == import_lines_from(
        lines,
        1,
        true,
        Seq::empty(),
    ));
    lemma_import_shift(x, split_lines(rest_text), 0, true, Seq::empty());
    lemma_import_records_text(ps, Seq::empty());
    assert(Seq::<PromptV>::empty() + ps =~= ps);
    lemma_upsert_all_fresh_empty(ps);
}

/// Freshly importing distinct records into an empty store keeps them all.
proof fn lemma_upsert_all_fresh_empty(ps: Seq<PromptV>)
    requires
        ids_distinct(ps),
    ensures
        upsert_all(Seq::empty(), ps) == ps,
{
    assert(Seq::<PromptV>::empty() + ps =~= ps);
    crate::store::lemma_upsert_all_fresh(Seq::empty(), ps);
}

/// A file holding only a valid header line imports zero records, and is
/// not an error.
pub proof fn lemma_metadata_only_import(m: MetaV)
    requires
        m.count <= usize::MAX as nat,
        i32::MIN as int <= m.schema_version <= i32::MAX as int,
    ensures
        spec_import(enc_meta(m) + seq!['\n']) == Ok::<Seq<PromptV>, int>(Seq::empty()),
{
    assert(enc_meta(m) + seq!['\n'] =~= spec_export_text(Seq::empty(), m));
    lemma_export_import_round_trip(Seq::empty(), m);
}

// ---------------------------------------------------------------------------
// Executable engines
// ---------------------------------------------------------------------------
/// Copies `t[a..b]` out as a fresh vector.
fn sub_chars(t: &Vec<char>, a: usize, b: usize) -> (r: Vec<char>)
    requires
        a <= b <= t@.len(),
    ensures
        r@ == t@.subrange(a as int, b as int),
{
    let mut r: Vec<char> = Vec::new();
    let mut i: usize = a;
    while i < b
        invariant
            a <= i <= b <= t@.len(),
            r@ == t@.subrange(a as int, i as int),
        decreases b - i,
    {
        r.push(t[i]);
        i = i + 1;
        proof {
            assert(r@ =~= t@.subrange(a as int, i as int));
        }
    }
    r
}

/// Appends all of `src` to `dst`.
fn push_all(dst: &mut Vec<char>, src: &Vec<char>)
    ensures
        final(dst)@ == old(dst)@ + src@,
{
    let mut i: usize = 0;
    while i < src.len()
        invariant
            i <= src@.len(),
            dst@ == old(dst)@ + src@.take(i as int),
        decreases src@.len() - i,
    {
        dst.push(src[i]);
        i = i + 1;
        proof {
            assert(old(dst)@ + src@.take(i as int) =~= (old(dst)@ + src@.take(i - 1)).push(
                src@[i - 1],
            ));
        }
    }
    proof {
        assert(src@.take(src@.len() as int) =~= src@);
    }
}

/// Splits a text into its lines.
fn split_text(t: &Vec<char>) -> (lines: Vec<Vec<char>>)
    ensures
        lines.deep_view() == split_lines(t@),
{
    let tlen = t.len();
    let mut lines: Vec<Vec<char>> = Vec::new();
    let mut start: usize = 0;
    let mut k: usize = 0;
    proof {
        assert(lines.deep_view() =~~= Seq::<Seq<char>>::empty());
        assert(t@.skip(0) =~= t@);
        assert(Seq::<Seq<char>>::empty() + split_lines(t@) =~= split_lines(t@));
    }
    while k < tlen
        invariant
            tlen == t@.len(),
            start <= k <= tlen,
            forall|j: int| start <= j < k ==> t@[j] != '\n',
            split_lines(t@) == lines.deep_view() + split_lines(t@.skip(start as int)),
        decreases tlen - k,
    {
        if t[k] == '\n' {
            let line = sub_chars(t, start, k);
            let ghost ts = t@.skip(start as int);
            proof {
                lemma_first_nl(ts);
                assert(forall|j: int| 0 <= j < ts.len() ==> #[trigger] ts[j] == t@[start + j]);
                assert(ts[k - start] == '\n');
                if first_nl(ts) == -1 {
                    assert(false);
                }
                let fi = first_nl(ts);
                if fi < k - start {
                    assert(ts[fi] == t@[start + fi]);
                    assert(false);
                }
                if fi > k - start {
                    assert(ts[k - start] != '\n');
                    assert(false);
                }
                assert(fi == k - start);
                assert(split_lines(ts) == seq![ts.take(fi)] + split_lines(ts.skip(fi + 1)));
                assert(ts.take(fi) =~= t@.subrange(start as int, k as int));
                assert(ts.skip(fi + 1) =~= t@.skip(k + 1));
            }
            let ghost lv0 = lines.deep_view();
            lines.push(line);
            proof {
                assert(line.deep_view() =~= line@);
                assert(lines.deep_view() =~~= lv0.push(line@));
                assert(lv0 + (seq![line@] + split_lines(t@.skip(k + 1))) =~= lv0.push(line@)
                    + split_lines(t@.skip(k + 1)));
            }
            start = k + 1;
        }
        k = k + 1;
    }
    let line = sub_chars(t, start, tlen);
    let ghost ts = t@.skip(start as int);
    proof {
        lemma_first_nl(ts);
        assert(forall|j: int| 0 <= j < ts.len() ==> #[trigger] ts[j] == t@[start + j]);
        if first_nl(ts) != -1 {
            let fi = first_nl(ts);
            assert(ts[fi] == t@[start + fi]);
            assert(false);
        }
        assert(split_lines(ts) == seq![ts]);
        assert(line@ =~= ts);
    }
    let ghost lv0 = lines.deep_view();
    lines.push(line);
    proof {
        assert(line.deep_view() =~= line@);
        assert(lines.deep_view() =~~= lv0.push(line@));
        assert(lv0 + seq![line@] =~= lv0.push(line@));
    }
    lines
}

/// Reads the data-version marker, falling back to the current time when it
/// was never set. The fallback is read-side only: nothing is written.
pub fn get_data_version(store: &Store) -> (r: String)
    ensures
        match store.spec_get_meta(dv_key()) {
            Some(v) => r@ == v,
            None => true,
        },
{
    match store.get_meta("data_version") {
        Some(v) => v,
        None => now_rfc3339(),
    }
}

/// Advances the data-version marker to the current time. Every other
/// metadata key and the record set are untouched.
pub fn update_data_version(store: &mut Store)
    requires
        old(store).wf(),
    ensures
        final(store).wf(),
        final(store).spec_get_meta(dv_key()) is Some,
        forall|k: Seq<char>|
            k != dv_key() ==> final(store).spec_get_meta(k) == old(store).spec_get_meta(k),
        final(store).prompts_view() == old(store).prompts_view(),
{
    let ts = now_rfc3339();
    store.set_meta("data_version", ts.as_str());
}

/// One more record extends the record text by one line.
proof fn lemma_export_records_snoc(ps: Seq<PromptV>, p: PromptV)
    ensures
        export_records_text(ps.push(p)) == export_records_text(ps) + enc_prompt(p) + seq!['\n'],
    decreases ps.len(),
{
    if ps.len() == 0 {
        assert(ps.push(p)[0] == p);
        assert(ps.push(p).drop_first() =~= Seq::<PromptV>::empty());
        assert(export_records_text(ps.push(p)) == enc_prompt(p) + seq!['\n']
            + export_records_text(Seq::<PromptV>::empty()));
        assert(enc_prompt(p) + seq!['\n'] + Seq::<char>::empty() =~= Seq::<char>::empty()
            + enc_prompt(p) + seq!['\n']);
    } else {
        assert(ps.push(p)[0] == ps[0]);
        assert(ps.push(p).drop_first() =~= ps.drop_first().push(p));
        assert(export_records_text(ps.push(p)) == enc_prompt(ps[0]) + seq!['\n']
            + export_records_text(ps.drop_first().push(p)));
        lemma_export_records_snoc(ps.drop_first(), p);
        assert(enc_prompt(ps[0]) + seq!['\n'] + (export_records_text(ps.drop_first())
            + enc_prompt(p) + seq!['\n']) =~= (enc_prompt(ps[0]) + seq!['\n']
            + export_records_text(ps.drop_first())) + enc_prompt(p) + seq!['\n']);
    }
}

/// Renders the exact file text of an export: the header line, then one
/// canonical record line per prompt, in the given order.
pub fn render_export(prompts: &Vec<Prompt>, meta: &MetaInfo) -> (s: String)
    ensures
        s@ == spec_export_text(prompts.deep_view(), meta@),
{
    let mut out = encode_meta_line(meta);
    out.push('\n');
    let ghost ps = prompts.deep_view();
    let ghost base = out@;
    proof {
        assert(base =~= enc_meta(meta@) + seq!['\n']);
        assert(export_records_text(ps.take(0)) == Seq::<char>::empty());
        assert(base + Seq::<char>::empty() =~= base);
    }
    let mut i: usize = 0;
    while i < prompts.len()
        invariant
            ps == prompts.deep_view(),
            i <= ps.len(),
            base == enc_meta(meta@) + seq!['\n'],
            out@ == base + export_records_text(ps.take(i as int)),
        decreases ps.len() - i,
    {
        let line = encode_prompt_line(&prompts[i]);
        push_all(&mut out, &line);
        out.push('\n');
        proof {
            assert(ps[i as int] == prompts@[i as int]@);
            assert(ps.take(i + 1) =~= ps.take(i as int).push(ps[i as int]));
            lemma_export_records_snoc(ps.take(i as int), ps[i as int]);
            assert(base + export_records_text(ps.take(i as int)) + enc_prompt(ps[i as int])
                + seq!['\n'] =~= base + (export_records_text(ps.take(i as int)) + enc_prompt(
                ps[i as int],
            ) + seq!['\n']));
        }
        i = i + 1;
    }
    proof {
        assert(ps.take(ps.len() as int) =~= ps);
        assert(base + export_records_text(ps) =~= spec_export_text(ps, meta@));
    }
    string_of(&out)
}

/// Computes the full export text of a store, with a fresh header: the
/// version field carries the store's data-version marker when one is set,
/// the count is the record count, and the schema version is the store's
/// constant. Returns the text and the count. Writing the text to disk and
/// then advancing the marker stay with the caller, since the marker may
/// move only after the file is durable.
pub fn export_text(store: &Store) -> (r: (String, usize))
    requires
        store.wf(),
    ensures
        r.1 == store.prompts_view().len(),
        exists|m: MetaV|
            {
                &&& r.0@ == spec_export_text(store.prompts_view(), m)
                &&& m.count == store.prompts_view().len()
                &&& m.schema_version == SCHEMA_VERSION as int
                &&& match store.spec_get_meta(dv_key()) {
                    Some(v) => m.version == v,
                    None => true,
                }
            },
{
    let prompts = store.list_prompts();
    let count = prompts.len();
    let version = get_data_version(store);
    let exported_at = now_rfc3339();
    let meta = MetaInfo { version, count, exported_at, schema_version: SCHEMA_VERSION };
    let s = render_export(&prompts, &meta);
    proof {
        assert(export_header_matches(store, s@, meta@, count as nat));
    }
    (s, count)
}

/// The header an export stamped: its relation to the store it came from.
pub open spec fn export_header_matches(store: &Store, text: Seq<char>, m: MetaV, count: nat) -> bool {
    &&& text == spec_export_text(store.prompts_view(), m)
    &&& m.count == count
    &&& m.schema_version == SCHEMA_VERSION as int
    &&& match store.spec_get_meta(dv_key()) {
        Some(v) => m.version == v,
        None => true,
    }
}

/// Imports the records of a backup text into the store: every line is
/// decoded, the whole batch lands in one bulk upsert, and the data-version
/// marker advances afterwards. A bad line anywhere aborts the import with
/// its 1-based line number and leaves the store exactly as it was.
pub fn import_text(store: &mut Store, text: &str) -> (r: Result<usize, ImportError>)
    requires
        old(store).wf(),
    ensures
        final(store).wf(),
        match spec_import(text@) {
            Ok(rs) => {
                &&& r matches Ok(n) && n == rs.len()
                &&& final(store).prompts_view() == upsert_all(old(store).prompts_view(), rs)
                &&& final(store).spec_get_meta(dv_key()) is Some
                &&& forall|k: Seq<char>|
                    k != dv_key() ==> final(store).spec_get_meta(k) == old(store).spec_get_meta(k)
            },
            Err(ln) => {
                &&& r matches Err(e) && e.line as int == ln
                &&& *final(store) == *old(store)
            },
        },
{
    let tv = chars_of(text);
    let lines = split_text(&tv);
    let ghost lv = lines.deep_view();
    let mut records: Vec<Prompt> = Vec::new();
    proof {
        assert(records.deep_view() =~= Seq::<PromptV>::empty());
        assert(spec_import(text@) == import_lines_from(lv, 0, false, Seq::empty()));
    }
    let mut seen = false;
    let nlines = lines.len();
    let mut i: usize = 0;
    while i < nlines
        invariant
            old(store).wf(),
            store == old(store),
            nlines == lv.len(),
            lv == lines.deep_view(),
            spec_import(text@) == import_lines_from(lv, 0, false, Seq::empty()),
            i <= nlines,
            import_lines_from(lv, 0, false, Seq::empty()) == import_lines_from(
                lv,
                i as int,
                seen,
                records.deep_view(),
            ),
        decreases nlines - i,
    {
        let lt = trim_chars(&lines[i]);
        proof {
            assert(lv[i as int] == lines@[i as int].deep_view());
            assert(lines@[i as int].deep_view() =~= lines@[i as int]@);
            assert(lt@ == trim(lv[i as int]));
        }
        if lt.len() == 0 {
            i = i + 1;
        } else if !seen && line_is_header(&lt) {
            match parse_meta_line(&lt) {
                Some(_m) => {
                    seen = true;
                    i = i + 1;
                },
                None => {
                    return Err(ImportError { line: i + 1 });
                },
            }
        } else {
            match parse_record_line(&lt) {
                Some(p) => {
                    let ghost rv0 = records.deep_view();
                    records.push(p);
                    proof {
                        assert(records.deep_view() =~= rv0.push(p@));
                    }
                    seen = true;
                    i = i + 1;
                },
                None => {
                    return Err(ImportError { line: i + 1 });
                },
            }
        }
    }
    let n = records.len();
    proof {
        assert(records.deep_view().len() == n as nat);
    }
    store.bulk_upsert_prompts(&records);
    update_data_version(store);
    Ok(n)
}

} // verus!
