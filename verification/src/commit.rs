//! Commit records: the canonical textual rendering whose digest is the
//! commit id, and the reader that takes the snapshot digest back out of a
//! stored record.

use vstd::prelude::*;
use vstd::utf8::{decode_utf8, valid_utf8};
use crate::codec::{
    bytes_to_string, field_text, lemma_parse_field_text, parse_field, parse_field_at, push_field,
};
use crate::digest::is_hex_char;
use crate::errors::VcsError;
use crate::numerals::{
    all_dec_digits, dec20, lemma_dec20_val, lemma_val_prefix_offset, push_dec20, read_dec20,
    val20,
};

verus! {

/// One commit: its id, message, author identity, timestamp in seconds since
/// the epoch, and the digest of its snapshot.
pub struct Commit {
    pub id: String,
    pub message: String,
    pub author: String,
    pub timestamp: i64,
    pub tree_hash: String,
}

impl Commit {
    /// A copy of the record.
    pub fn dup(&self) -> (r: Commit)
        ensures
            r == *self,
    {
        Commit {
            id: self.id.clone(),
            message: self.message.clone(),
            author: self.author.clone(),
            timestamp: self.timestamp,
            tree_hash: self.tree_hash.clone(),
        }
    }
}

/// The fixed author identity of this engine.
pub open spec fn author_text() -> Seq<char> {
    "RustGit <rustgit@example.com>"@
}

/// The fixed author identity.
pub fn author_str() -> (r: &'static str)
    ensures
        r@ == author_text(),
{
    "RustGit <rustgit@example.com>"
}

/// The magnitude of a timestamp.
pub open spec fn ts_mag(ts: int) -> nat {
    if ts < 0 {
        (-ts) as nat
    } else {
        ts as nat
    }
}

/// A timestamp as text: an explicit sign and twenty digits.
pub open spec fn ts_text(ts: int) -> Seq<char> {
    (if ts < 0 {
        seq!['-']
    } else {
        seq!['+']
    }) + dec20(ts_mag(ts))
}

/// Appends the signed twenty-digit rendering of a timestamp.
pub fn push_ts(out: &mut String, ts: i64)
    ensures
        final(out)@ == old(out)@ + ts_text(ts as int),
{
    proof {
        reveal_strlit("-");
        reveal_strlit("+");
    }
    let mag: u64 = if ts < 0 {
        out.append("-");
        (-(ts as i128)) as u64
    } else {
        out.append("+");
        ts as u64
    };
    assert(mag == ts_mag(ts as int));
    push_dec20(out, mag);
    proof {
        assert("-"@ =~= seq!['-']);
        assert("+"@ =~= seq!['+']);
        assert(out@ =~= old(out)@ + ts_text(ts as int));
    }
}

/// The canonical text of a commit record: the snapshot digest, the author
/// line with the timestamp, a blank line, the message. The commit id is the
/// digest of this text.
pub open spec fn commit_text(th: Seq<char>, ts: int, msg: Seq<char>) -> Seq<char> {
    "tree "@ + th + seq!['\n'] + "author "@ + author_text() + seq![' '] + ts_text(ts) + seq![
        '\n',
        '\n',
    ] + msg
}

/// Renders the canonical commit record text.
pub fn render_commit_text(tree_hash: &str, timestamp: i64, message: &str) -> (r: String)
    ensures
        r@ == commit_text(tree_hash@, timestamp as int, message@),
{
    proof {
        reveal_strlit("\n");
        reveal_strlit(" ");
        reveal_strlit("\n\n");
    }
    let mut out = String::new();
    out.append("tree ");
    out.append(tree_hash);
    out.append("\n");
    out.append("author ");
    out.append(author_str());
    out.append(" ");
    push_ts(&mut out, timestamp);
    out.append("\n\n");
    out.append(message);
    proof {
        assert("\n"@ =~= seq!['\n']);
        assert(" "@ =~= seq![' ']);
        assert("\n\n"@ =~= seq!['\n', '\n']);
        assert(out@ =~= commit_text(tree_hash@, timestamp as int, message@));
    }
    out
}

/// The position of the first line feed at or after `pos`, or the end.
pub open spec fn line_end(s: Seq<char>, pos: int) -> int
    decreases s.len() - pos,
    when 0 <= pos <= s.len()
{
    if pos == s.len() {
        pos
    } else if s[pos] == '\n' {
        pos
    } else {
        line_end(s, pos + 1)
    }
}

proof fn lemma_line_end_at(s: Seq<char>, pos: int, e: int)
    requires
        0 <= pos <= e <= s.len(),
        forall|j: int| pos <= j < e ==> #[trigger] s[j] != '\n',
        e == s.len() || s[e] == '\n',
    ensures
        line_end(s, pos) == e,
    decreases e - pos,
{
    if pos < e {
        lemma_line_end_at(s, pos + 1, e);
    }
}

proof fn lemma_line_end_bounds(s: Seq<char>, pos: int)
    requires
        0 <= pos <= s.len(),
    ensures
        pos <= line_end(s, pos) <= s.len(),
        forall|j: int| pos <= j < line_end(s, pos) ==> #[trigger] s[j] != '\n',
        line_end(s, pos) < s.len() ==> s[line_end(s, pos)] == '\n',
    decreases s.len() - pos,
{
    if pos < s.len() && s[pos] != '\n' {
        lemma_line_end_bounds(s, pos + 1);
    }
}

/// The snapshot digest a commit record names: the characters of its first
/// line after the `tree ` tag. Nothing when the text does not begin with a
/// tree line.
pub open spec fn parse_commit_text(s: Seq<char>) -> Option<Seq<char>> {
    if s.len() >= 5 && s.subrange(0, 5) == "tree "@ {
        Some(s.subrange(5, line_end(s, 5)))
    } else {
        None
    }
}

/// The snapshot digest a stored commit object names, read from its bytes.
pub open spec fn parse_commit_bytes(b: Seq<u8>) -> Option<Seq<char>> {
    if valid_utf8(b) {
        parse_commit_text(decode_utf8(b))
    } else {
        None
    }
}

fn find_line_end(s: &str, pos: usize) -> (r: usize)
    requires
        pos <= s@.len(),
    ensures
        r == line_end(s@, pos as int),
        pos <= r <= s@.len(),
{
    let n = s.unicode_len();
    let mut j: usize = pos;
    while j < n
        invariant
            pos <= j <= n,
            n == s@.len(),
            line_end(s@, pos as int) == line_end(s@, j as int),
        decreases n - j,
    {
        if s.get_char(j) == '\n' {
            return j;
        }
        j = j + 1;
    }
    j
}

/// Extracts the snapshot digest from a stored commit record. Fails with
/// `MalformedRecord` exactly when the bytes are not UTF-8 or the text has no
/// leading tree line.
pub fn parse_commit(commit_content: &[u8]) -> (r: Result<String, VcsError>)
    ensures
        r matches Ok(t) ==> parse_commit_bytes(commit_content@) == Some(t@),
        r is Err ==> parse_commit_bytes(commit_content@) is None,
        r matches Err(e) ==> e matches VcsError::MalformedRecord(_),
{
    let s = match bytes_to_string(commit_content) {
        None => {
            return Err(VcsError::MalformedRecord(String::new()));
        },
        Some(s) => s,
    };
    proof {
        reveal_strlit("tree ");
    }
    let n = s.as_str().unicode_len();
    if n < 5 {
        assert(!(s@.len() >= 5));
        return Err(VcsError::MalformedRecord(s));
    }
    if s.as_str().get_char(0) != 't' || s.as_str().get_char(1) != 'r' || s.as_str().get_char(2)
        != 'e' || s.as_str().get_char(3) != 'e' || s.as_str().get_char(4) != ' ' {
        assert(s@.subrange(0, 5) != "tree "@) by {
            if s@.subrange(0, 5) == "tree "@ {
                assert(s@.subrange(0, 5)[0] == 't' && s@.subrange(0, 5)[1] == 'r' && s@.subrange(
                    0,
                    5,
                )[2] == 'e' && s@.subrange(0, 5)[3] == 'e' && s@.subrange(0, 5)[4] == ' ');
            }
        }
        return Err(VcsError::MalformedRecord(s));
    }
    proof {
        assert(s@.subrange(0, 5) =~= "tree "@);
    }
    let e = find_line_end(s.as_str(), 5);
    let th = s.as_str().substring_char(5, e);
    Ok(String::from_str(th))
}

/// The timestamp a signed twenty-digit field denotes, when it denotes one
/// that fits a 64-bit signed integer.
pub open spec fn ts_of(f: Seq<char>) -> Option<int> {
    if f.len() == 21 && (f[0] == '-' || f[0] == '+') && all_dec_digits(f, 1, 20) {
        let v = val20(f, 1);
        if f[0] == '-' && v <= 0x8000_0000_0000_0000 {
            Some(-(v as int))
        } else if f[0] == '+' && v <= 0x7fff_ffff_ffff_ffff {
            Some(v as int)
        } else {
            None
        }
    } else {
        None
    }
}

/// A timestamp's rendering denotes the timestamp.
pub proof fn lemma_ts_round_trip(ts: int)
    requires
        i64::MIN <= ts <= i64::MAX,
    ensures
        ts_of(ts_text(ts)) == Some(ts),
{
    let f = ts_text(ts);
    let mag = ts_mag(ts);
    assert(mag < crate::numerals::pow10(20)) by {
        crate::numerals::lemma_u64_below_pow10_20();
    }
    lemma_dec20_val(mag);
    assert(f.len() == 21);
    assert forall|j: int| 1 <= j < 21 implies crate::numerals::is_dec_digit(#[trigger] f[j]) by {
        assert(f[j] == dec20(mag)[j - 1]);
    }
    assert forall|j: int| 0 <= j < 20 implies #[trigger] f[1 + j] == dec20(mag)[0 + j] by {}
    lemma_val_prefix_offset(f, 1, dec20(mag), 0, 20);
    assert(val20(f, 1) == mag);
}

fn parse_ts_field(f: &str) -> (r: Option<i64>)
    ensures
        r is Some <==> ts_of(f@) is Some,
        r matches Some(v) ==> ts_of(f@) == Some(v as int),
{
    if f.unicode_len() != 21 {
        return None;
    }
    let c0 = f.get_char(0);
    if c0 != '-' && c0 != '+' {
        return None;
    }
    let v = match read_dec20(f, 1) {
        None => {
            return None;
        },
        Some(v) => v,
    };
    if c0 == '-' {
        if v > 0x8000_0000_0000_0000u64 {
            None
        } else if v == 0x8000_0000_0000_0000u64 {
            Some(i64::MIN)
        } else {
            Some(-(v as i64))
        }
    } else {
        if v > 0x7fff_ffff_ffff_ffffu64 {
            None
        } else {
            Some(v as i64)
        }
    }
}

/// One line of the commit log: the id, author, timestamp, message and
/// snapshot digest of a commit, each as a length-prefixed field.
pub open spec fn record_text(
    id: Seq<char>,
    author: Seq<char>,
    ts: int,
    msg: Seq<char>,
    th: Seq<char>,
) -> Seq<char> {
    field_text(id) + field_text(author) + field_text(ts_text(ts)) + field_text(msg) + field_text(
        th,
    ) + seq!['\n']
}

/// The five fields of each commit, in log order.
pub open spec fn log_fields(cs: Seq<Commit>) -> Seq<(Seq<char>, Seq<char>, int, Seq<char>, Seq<char>)> {
    Seq::new(cs.len(), |i: int| (cs[i].id@, cs[i].author@, cs[i].timestamp as int, cs[i].message@, cs[i].tree_hash@))
}

/// The serialized commit log: one record per commit, in log order.
pub open spec fn log_text(fs: Seq<(Seq<char>, Seq<char>, int, Seq<char>, Seq<char>)>) -> Seq<char>
    decreases fs.len(),
{
    if fs.len() == 0 {
        Seq::empty()
    } else {
        record_text(fs[0].0, fs[0].1, fs[0].2, fs[0].3, fs[0].4) + log_text(fs.drop_first())
    }
}

/// Serializing one more commit appends one more record.
pub proof fn lemma_log_text_push(
    fs: Seq<(Seq<char>, Seq<char>, int, Seq<char>, Seq<char>)>,
    e: (Seq<char>, Seq<char>, int, Seq<char>, Seq<char>),
)
    ensures
        log_text(fs.push(e)) == log_text(fs) + record_text(e.0, e.1, e.2, e.3, e.4),
    decreases fs.len(),
{
    let r = record_text(e.0, e.1, e.2, e.3, e.4);
    if fs.len() == 0 {
        let empty = Seq::<(Seq<char>, Seq<char>, int, Seq<char>, Seq<char>)>::empty();
        assert(fs.push(e).drop_first() =~= empty);
        assert(fs.push(e)[0] == e);
        assert(log_text(empty) =~= Seq::<char>::empty());
        assert(fs =~= empty);
        assert(log_text(fs.push(e)) == r + log_text(empty));
        assert(r + Seq::<char>::empty() =~= r);
        assert(Seq::<char>::empty() + r =~= r);
        assert(log_text(fs.push(e)) =~= log_text(fs) + r);
    } else {
        lemma_log_text_push(fs.drop_first(), e);
        assert(fs.push(e).drop_first() =~= fs.drop_first().push(e));
        assert(fs.push(e)[0] == fs[0]);
        assert(log_text(fs.push(e)) == record_text(fs[0].0, fs[0].1, fs[0].2, fs[0].3, fs[0].4) + (
        log_text(fs.drop_first()) + r));
        assert(log_text(fs.push(e)) =~= log_text(fs) + r);
    }
}

/// Reads one log record of `s` at `pos`.
pub open spec fn parse_record_at(s: Seq<char>, pos: int) -> Option<
    ((Seq<char>, Seq<char>, int, Seq<char>, Seq<char>), int),
> {
    match parse_field_at(s, pos) {
        None => None,
        Some((id, p1)) => match parse_field_at(s, p1) {
            None => None,
            Some((author, p2)) => match parse_field_at(s, p2) {
                None => None,
                Some((tsf, p3)) => match ts_of(tsf) {
                    None => None,
                    Some(ts) => match parse_field_at(s, p3) {
                        None => None,
                        Some((msg, p4)) => match parse_field_at(s, p4) {
                            None => None,
                            Some((th, p5)) => {
                                if 0 <= p5 < s.len() && s[p5] == '\n' {
                                    Some(((id, author, ts, msg, th), p5 + 1))
                                } else {
                                    None
                                }
                            },
                        },
                    },
                },
            },
        },
    }
}

/// Reads log records from `pos` to the end of `s`.
pub open spec fn parse_log_at(s: Seq<char>, pos: int) -> Option<
    Seq<(Seq<char>, Seq<char>, int, Seq<char>, Seq<char>)>,
>
    decreases s.len() - pos,
    when 0 <= pos <= s.len()
{
    if pos == s.len() {
        Some(Seq::empty())
    } else {
        match parse_record_at(s, pos) {
            None => None,
            Some((e, p)) => {
                if !(pos < p <= s.len()) {
                    None
                } else {
                    match parse_log_at(s, p) {
                        None => None,
                        Some(rest) => Some(seq![e] + rest),
                    }
                }
            },
        }
    }
}

proof fn lemma_field_in_suffix(s: Seq<char>, pos: int, before: Seq<char>, x: Seq<char>, after: Seq<char>)
    requires
        0 <= pos <= s.len(),
        x.len() <= usize::MAX,
        s.subrange(pos, s.len() as int) == before + field_text(x) + after,
    ensures
        parse_field_at(s, pos + before.len()) == Some(
            (x, pos + before.len() + 22 + x.len()),
        ),
{
    let suffix = s.subrange(pos, s.len() as int);
    let b = before.len() as int;
    let w = 22 + x.len() as int;
    assert(field_text(x).len() == w);
    assert(suffix.len() == s.len() - pos);
    assert(suffix.len() == before.len() + w + after.len());
    assert(pos + b + w <= s.len());
    assert forall|j: int| 0 <= j < w implies s.subrange(pos + b, pos + b + w)[j] == field_text(
        x,
    )[j] by {
        assert(s.subrange(pos + b, pos + b + w)[j] == s[pos + b + j]);
        assert(suffix[b + j] == s[pos + (b + j)]);
        assert(suffix[b + j] == (before + field_text(x))[b + j]);
        assert((before + field_text(x))[b + j] == field_text(x)[j]);
    }
    assert(s.subrange(pos + b, pos + b + w) =~= field_text(x));
    lemma_parse_field_text(s, pos + b, x);
}

#[verifier::spinoff_prover]
#[verifier::rlimit(100)]
proof fn lemma_parse_record_in_suffix(
    s: Seq<char>,
    pos: int,
    e: (Seq<char>, Seq<char>, int, Seq<char>, Seq<char>),
    tail: Seq<char>,
)
    requires
        0 <= pos <= s.len(),
        s.len() <= usize::MAX,
        i64::MIN <= e.2 <= i64::MAX,
        s.subrange(pos, s.len() as int) == record_text(e.0, e.1, e.2, e.3, e.4) + tail,
    ensures
        ({
            let wr = record_text(e.0, e.1, e.2, e.3, e.4).len() as int;
            &&& pos + wr <= s.len()
            &&& parse_record_at(s, pos) == Some((e, pos + wr))
            &&& s.subrange(pos + wr, s.len() as int) == tail
        }),
{
    let suffix = s.subrange(pos, s.len() as int);
    let r0 = record_text(e.0, e.1, e.2, e.3, e.4);
    let w1 = 22 + e.0.len() as int;
    let w2 = 22 + e.1.len() as int;
    let w3 = 43int;
    let w4 = 22 + e.3.len() as int;
    let w5 = 22 + e.4.len() as int;
    let wr = w1 + w2 + w3 + w4 + w5 + 1;
    let fa = field_text(e.0);
    let fb = field_text(e.1);
    let fc = field_text(ts_text(e.2));
    let fd = field_text(e.3);
    let fe = field_text(e.4);
    let nl = seq!['\n'];
    assert(ts_text(e.2).len() == 21);
    assert(fa.len() == w1 && fb.len() == w2 && fc.len() == w3 && fd.len() == w4 && fe.len() == w5);
    assert(r0 == fa + fb + fc + fd + fe + nl);
    assert(r0.len() == wr);
    assert(suffix == r0 + tail);
    assert(suffix.len() == r0.len() + tail.len());
    assert(suffix.len() == s.len() - pos);
    assert(pos + wr <= s.len());
    assert forall|j: int| 0 <= j < suffix.len() implies s[pos + j] == suffix[j] by {
        assert(suffix[j] == s[pos + j]);
    }
    assert(suffix =~= Seq::<char>::empty() + fa + (fb + fc + fd + fe + nl + tail));
    lemma_field_in_suffix(s, pos, Seq::<char>::empty(), e.0, fb + fc + fd + fe + nl + tail);
    assert(suffix =~= fa + fb + (fc + fd + fe + nl + tail));
    lemma_field_in_suffix(s, pos, fa, e.1, fc + fd + fe + nl + tail);
    assert(suffix =~= (fa + fb) + fc + (fd + fe + nl + tail));
    lemma_field_in_suffix(s, pos, fa + fb, ts_text(e.2), fd + fe + nl + tail);
    assert(suffix =~= (fa + fb + fc) + fd + (fe + nl + tail));
    lemma_field_in_suffix(s, pos, fa + fb + fc, e.3, fe + nl + tail);
    assert(suffix =~= (fa + fb + fc + fd) + fe + (nl + tail));
    lemma_field_in_suffix(s, pos, fa + fb + fc + fd, e.4, nl + tail);
    assert((fa + fb + fc + fd).len() == w1 + w2 + w3 + w4);
    lemma_ts_round_trip(e.2);
    assert(s[pos + (wr - 1)] == suffix[wr - 1]);
    assert(suffix[wr - 1] == r0[wr - 1]);
    assert(r0[wr - 1] == '\n');
    assert(parse_record_at(s, pos) == Some((e, pos + wr)));
    assert(s.subrange(pos + wr, s.len() as int) =~= tail) by {
        assert forall|j: int| 0 <= j < s.len() - pos - wr implies s.subrange(
            pos + wr,
            s.len() as int,
        )[j] == tail[j] by {
            assert(s[pos + (wr + j)] == suffix[wr + j]);
            assert(suffix[wr + j] == tail[j]);
        }
    }
}

/// A serialized log reads back as exactly the commits it was written from.
pub proof fn lemma_parse_log_text(
    s: Seq<char>,
    pos: int,
    fs: Seq<(Seq<char>, Seq<char>, int, Seq<char>, Seq<char>)>,
)
    requires
        0 <= pos <= s.len(),
        s.len() <= usize::MAX,
        forall|k: int| 0 <= k < fs.len() ==> i64::MIN <= (#[trigger] fs[k]).2 <= i64::MAX,
        s.subrange(pos, s.len() as int) == log_text(fs),
    ensures
        parse_log_at(s, pos) == Some(fs),
    decreases fs.len(),
{
    if fs.len() == 0 {
        assert(log_text(fs).len() == 0);
        assert(pos == s.len());
    } else {
        let e = fs[0];
        let tail = log_text(fs.drop_first());
        let wr = record_text(e.0, e.1, e.2, e.3, e.4).len() as int;
        assert(s.subrange(pos, s.len() as int) == record_text(e.0, e.1, e.2, e.3, e.4) + tail);
        lemma_parse_record_in_suffix(s, pos, e, tail);
        assert forall|k: int| 0 <= k < fs.drop_first().len() implies i64::MIN <= (
        #[trigger] fs.drop_first()[k]).2 <= i64::MAX by {
            assert(fs.drop_first()[k] == fs[k + 1]);
        }
        lemma_parse_log_text(s, pos + wr, fs.drop_first());
        assert(seq![e] + fs.drop_first() =~= fs);
    }
}

/// Serializes the commit log, one record per commit, in log order.
pub fn log_to_text(commits: &Vec<Commit>) -> (r: String)
    ensures
        r@ == log_text(log_fields(commits@)),
{
    proof {
        reveal_strlit("\n");
    }
    let mut out = String::new();
    let mut i: usize = 0;
    while i < commits.len()
        invariant
            i <= commits@.len(),
            out@ == log_text(log_fields(commits@).subrange(0, i as int)),
            "\n"@ =~= seq!['\n'],
        decreases commits@.len() - i,
    {
        let ghost prefix = log_fields(commits@).subrange(0, i as int);
        let c = &commits[i];
        push_field(&mut out, c.id.as_str());
        push_field(&mut out, c.author.as_str());
        let mut tsf = String::new();
        push_ts(&mut tsf, c.timestamp);
        push_field(&mut out, tsf.as_str());
        push_field(&mut out, c.message.as_str());
        push_field(&mut out, c.tree_hash.as_str());
        out.append("\n");
        proof {
            let e = log_fields(commits@)[i as int];
            lemma_log_text_push(prefix, e);
            assert(prefix.push(e) =~= log_fields(commits@).subrange(0, i + 1 as int));
            assert(out@ =~= log_text(log_fields(commits@).subrange(0, i + 1 as int)));
        }
        i = i + 1;
    }
    proof {
        assert(log_fields(commits@).subrange(0, commits@.len() as int) =~= log_fields(commits@));
    }
    out
}

/// Reads a serialized commit log back into its commits. Fails with
/// `MalformedRecord` exactly when the text is not a serialized log.
pub fn parse_log(s: &str) -> (r: Result<Vec<Commit>, VcsError>)
    ensures
        r matches Ok(v) ==> parse_log_at(s@, 0) == Some(log_fields(v@)),
        r is Err ==> parse_log_at(s@, 0) is None,
        r matches Err(e) ==> e matches VcsError::MalformedRecord(_),
{
    let n = s.unicode_len();
    let mut acc: Vec<Commit> = Vec::new();
    let mut pos: usize = 0;
    proof {
        assert(log_fields(acc@) =~= Seq::<(Seq<char>, Seq<char>, int, Seq<char>, Seq<char>)>::empty());
    }
    while pos < n
        invariant
            0 <= pos <= n,
            n == s@.len(),
            parse_log_at(s@, pos as int) matches Some(rest) ==> parse_log_at(s@, 0) == Some(
                log_fields(acc@) + rest,
            ),
            parse_log_at(s@, pos as int) is None ==> parse_log_at(s@, 0) is None,
        decreases n - pos,
    {
        let ghost old_acc = log_fields(acc@);
        let (id, p1) = match parse_field(s, pos) {
            None => {
                return Err(VcsError::MalformedRecord(String::from_str(s)));
            },
            Some(x) => x,
        };
        assert(p1 <= s@.len());
        let (author, p2) = match parse_field(s, p1) {
            None => {
                return Err(VcsError::MalformedRecord(String::from_str(s)));
            },
            Some(x) => x,
        };
        assert(p2 <= s@.len());
        let (tsf, p3) = match parse_field(s, p2) {
            None => {
                return Err(VcsError::MalformedRecord(String::from_str(s)));
            },
            Some(x) => x,
        };
        assert(p3 <= s@.len());
        let ts = match parse_ts_field(tsf.as_str()) {
            None => {
                return Err(VcsError::MalformedRecord(String::from_str(s)));
            },
            Some(t) => t,
        };
        let (msg, p4) = match parse_field(s, p3) {
            None => {
                return Err(VcsError::MalformedRecord(String::from_str(s)));
            },
            Some(x) => x,
        };
        assert(p4 <= s@.len());
        let (th, p5) = match parse_field(s, p4) {
            None => {
                return Err(VcsError::MalformedRecord(String::from_str(s)));
            },
            Some(x) => x,
        };
        assert(p5 <= s@.len());
        if p5 == n || s.get_char(p5) != '\n' {
            return Err(VcsError::MalformedRecord(String::from_str(s)));
        }
        acc.push(
            Commit { id, message: msg, author, timestamp: ts, tree_hash: th },
        );
        proof {
            let e = (id@, author@, ts as int, msg@, th@);
            assert(log_fields(acc@) =~= old_acc.push(e));
            assert(parse_record_at(s@, pos as int) == Some((e, p5 + 1 as int)));
            let rest_opt = parse_log_at(s@, p5 + 1 as int);
            match rest_opt {
                Some(rest) => {
                    assert(parse_log_at(s@, pos as int) == Some(seq![e] + rest));
                    assert(old_acc + (seq![e] + rest) =~= log_fields(acc@) + rest);
                },
                None => {
                    assert(parse_log_at(s@, pos as int) is None);
                },
            }
        }
        pos = p5 + 1;
    }
    proof {
        assert(parse_log_at(s@, pos as int) == Some(
            Seq::<(Seq<char>, Seq<char>, int, Seq<char>, Seq<char>)>::empty(),
        ));
        assert(log_fields(acc@) + Seq::<(Seq<char>, Seq<char>, int, Seq<char>, Seq<char>)>::empty()
            =~= log_fields(acc@));
    }
    Ok(acc)
}

/// A rendered commit record, stored and read back, names the snapshot digest
/// it was rendered from: the round trip through the object store is exact.
pub proof fn lemma_parse_commit_round_trip(th: Seq<char>, ts: int, msg: Seq<char>)
    requires
        th.len() == 40,
        forall|i: int| 0 <= i < th.len() ==> is_hex_char(#[trigger] th[i]),
    ensures
        parse_commit_bytes(vstd::utf8::encode_utf8(commit_text(th, ts, msg))) == Some(th),
{
    broadcast use vstd::utf8::encode_utf8_valid_utf8, vstd::utf8::encode_utf8_decode_utf8;

    let s = commit_text(th, ts, msg);
    reveal_strlit("tree ");
    assert("tree "@.len() == 5);
    assert(s.len() >= 45);
    assert(s.subrange(0, 5) =~= "tree "@) by {
        assert forall|j: int| 0 <= j < 5 implies s.subrange(0, 5)[j] == "tree "@[j] by {
            assert(s[j] == "tree "@[j]);
        }
    }
    assert forall|j: int| 5 <= j < 45 implies #[trigger] s[j] != '\n' by {
        assert(s[j] == th[j - 5]);
        assert(is_hex_char(th[j - 5]));
        crate::digest::lemma_hex_char_not_separator(th[j - 5]);
    }
    assert(s[45] == '\n');
    lemma_line_end_at(s, 5, 45);
    assert(s.subrange(5, 45) =~= th) by {
        assert forall|j: int| 0 <= j < 40 implies s.subrange(5, 45)[j] == th[j] by {
            assert(s[5 + j] == th[j]);
        }
    }
}

} // verus!
