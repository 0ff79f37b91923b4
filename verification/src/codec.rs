//! The serialization contract of the snapshot records. A snapshot is the
//! staged (path, digest) pairs in staging order, one line per pair; each
//! string field is length-prefixed with a twenty-digit numeral, so any path
//! and any digest round-trips exactly.

use vstd::prelude::*;
use crate::errors::VcsError;
use crate::index::{entries_view, IndexEntry};
use crate::numerals::{
    all_dec_digits, dec20, lemma_dec20_val, lemma_u64_below_pow10_20, lemma_usize_below_pow10_20,
    lemma_val_prefix_offset, push_dec20, read_dec20, val20,
};

verus! {

/// A length-prefixed field: twenty digits giving the character count, one
/// space, the characters themselves, one space.
pub open spec fn field_text(x: Seq<char>) -> Seq<char> {
    dec20(x.len()) + seq![' '] + x + seq![' ']
}

/// Reads one length-prefixed field of `s` at `pos`: the field's characters
/// and the position just past it.
pub open spec fn parse_field_at(s: Seq<char>, pos: int) -> Option<(Seq<char>, int)> {
    if !(0 <= pos && pos + 20 <= s.len() && all_dec_digits(s, pos, 20) && val20(s, pos)
        <= usize::MAX) {
        None
    } else {
        let n = val20(s, pos) as int;
        if !(pos + 22 + n <= s.len()) {
            None
        } else if s[pos + 20] != ' ' {
            None
        } else if s[pos + 21 + n] != ' ' {
            None
        } else {
            Some((s.subrange(pos + 21, pos + 21 + n), pos + 22 + n))
        }
    }
}

/// A field reads back as exactly the characters it was written from.
pub proof fn lemma_parse_field_text(s: Seq<char>, pos: int, x: Seq<char>)
    requires
        0 <= pos,
        x.len() <= usize::MAX,
        pos + 22 + x.len() <= s.len(),
        s.subrange(pos, pos + 22 + x.len()) == field_text(x),
    ensures
        parse_field_at(s, pos) == Some((x, pos + 22 + x.len())),
{
    lemma_usize_below_pow10_20();
    lemma_dec20_val(x.len());
    let f = field_text(x);
    let w = 22 + x.len() as int;
    assert forall|j: int| 0 <= j < w implies s[pos + j] == f[j] by {
        assert(s.subrange(pos, pos + w)[j] == s[pos + j]);
    }
    assert forall|j: int| pos <= j < pos + 20 implies crate::numerals::is_dec_digit(
        #[trigger] s[j],
    ) by {
        assert(s[j] == f[j - pos]);
        assert(f[j - pos] == dec20(x.len())[j - pos]);
        assert(crate::numerals::is_dec_digit(dec20(x.len())[j - pos]));
    }
    assert(all_dec_digits(s, pos, 20));
    assert forall|j: int| 0 <= j < 20 implies #[trigger] s[pos + j] == dec20(x.len())[0 + j] by {
        assert(s[pos + j] == f[j]);
    }
    lemma_val_prefix_offset(s, pos, dec20(x.len()), 0, 20);
    assert(val20(s, pos) == val20(dec20(x.len()), 0));
    assert(val20(s, pos) == x.len());
    let n = x.len() as int;
    assert(s[pos + 20] == f[20]);
    assert(f[20] == ' ');
    assert(s[pos + 21 + n] == f[21 + n]);
    assert(f[21 + n] == ' ');
    assert(s.subrange(pos + 21, pos + 21 + n) =~= x) by {
        assert forall|j: int| 0 <= j < n implies s.subrange(pos + 21, pos + 21 + n)[j] == x[j] by {
            assert(s[pos + (21 + j)] == f[21 + j]);
            assert(f[21 + j] == x[j]);
        }
    }
}

/// Appends a length-prefixed field to `out`.
pub fn push_field(out: &mut String, x: &str)
    ensures
        final(out)@ == old(out)@ + field_text(x@),
{
    proof {
        reveal_strlit(" ");
    }
    let n = x.unicode_len();
    push_dec20(out, n as u64);
    out.append(" ");
    out.append(x);
    out.append(" ");
    proof {
        assert(" "@ =~= seq![' ']);
        assert(out@ =~= old(out)@ + field_text(x@));
    }
}

/// Reads one length-prefixed field of `s` at character position `pos`.
pub fn parse_field(s: &str, pos: usize) -> (r: Option<(String, usize)>)
    requires
        pos <= s@.len(),
    ensures
        r is Some <==> parse_field_at(s@, pos as int) is Some,
        r matches Some((x, p)) ==> parse_field_at(s@, pos as int) == Some((x@, p as int)),
{
    let n = s.unicode_len();
    if n < 20 || pos > n - 20 {
        return None;
    }
    proof {
        lemma_u64_below_pow10_20();
    }
    let v64 = match read_dec20(s, pos) {
        None => {
            return None;
        },
        Some(v) => v,
    };
    if v64 > usize::MAX as u64 {
        return None;
    }
    let v = v64 as usize;
    let avail = n - pos - 20;
    if avail < 2 || v > avail - 2 {
        assert(!(pos + 22 + val20(s@, pos as int) <= s@.len()));
        return None;
    }
    if s.get_char(pos + 20) != ' ' {
        return None;
    }
    if s.get_char(pos + 21 + v) != ' ' {
        return None;
    }
    let body = s.substring_char(pos + 21, pos + 21 + v);
    Some((String::from_str(body), pos + 22 + v))
}

/// Relies on String::from_utf8: it succeeds exactly on valid UTF-8 input and
/// returns the string whose encoding is that input.
#[verifier::external_body]
pub(crate) fn bytes_to_string(b: &[u8]) -> (r: Option<String>)
    ensures
        r is Some <==> vstd::utf8::valid_utf8(b@),
        r matches Some(s) ==> s@ == vstd::utf8::decode_utf8(b@),
{
    match String::from_utf8(b.to_vec()) {
        Ok(s) => Some(s),
        Err(_) => None,
    }
}

/// One snapshot line: the path field, the digest field, a line feed.
pub open spec fn entry_text(p: Seq<char>, h: Seq<char>) -> Seq<char> {
    field_text(p) + field_text(h) + seq!['\n']
}

/// The serialized form of a whole snapshot: its lines in staging order.
pub open spec fn index_text(es: Seq<(Seq<char>, Seq<char>)>) -> Seq<char>
    decreases es.len(),
{
    if es.len() == 0 {
        Seq::empty()
    } else {
        entry_text(es[0].0, es[0].1) + index_text(es.drop_first())
    }
}

/// Serializing one more entry appends one more line.
pub proof fn lemma_index_text_push(es: Seq<(Seq<char>, Seq<char>)>, p: Seq<char>, h: Seq<char>)
    ensures
        index_text(es.push((p, h))) == index_text(es) + entry_text(p, h),
    decreases es.len(),
{
    if es.len() == 0 {
        let empty = Seq::<(Seq<char>, Seq<char>)>::empty();
        assert(es.push((p, h)).drop_first() =~= empty);
        assert(es.push((p, h))[0] == (p, h));
        assert(index_text(empty) =~= Seq::<char>::empty());
        assert(es =~= empty);
        assert(index_text(es.push((p, h))) == entry_text(p, h) + index_text(empty));
        assert(entry_text(p, h) + Seq::<char>::empty() =~= entry_text(p, h));
        assert(Seq::<char>::empty() + entry_text(p, h) =~= entry_text(p, h));
        assert(index_text(es.push((p, h))) =~= index_text(es) + entry_text(p, h));
    } else {
        lemma_index_text_push(es.drop_first(), p, h);
        assert(es.push((p, h)).drop_first() =~= es.drop_first().push((p, h)));
        assert(es.push((p, h))[0] == es[0]);
        assert(index_text(es.push((p, h))) == entry_text(es[0].0, es[0].1) + (index_text(
            es.drop_first(),
        ) + entry_text(p, h)));
        assert(index_text(es.push((p, h))) =~= index_text(es) + entry_text(p, h));
    }
}

/// Reads snapshot lines from `pos` to the end of `s`.
pub open spec fn parse_entries_at(s: Seq<char>, pos: int) -> Option<Seq<(Seq<char>, Seq<char>)>>
    decreases s.len() - pos,
    when 0 <= pos <= s.len()
{
    if pos == s.len() {
        Some(Seq::empty())
    } else {
        match parse_field_at(s, pos) {
            None => None,
            Some((p, p1)) => match parse_field_at(s, p1) {
                None => None,
                Some((h, p2)) => {
                    if !(0 <= p2 < s.len() && s[p2] == '\n') {
                        None
                    } else if !(pos < p2 + 1 <= s.len()) {
                        None
                    } else {
                        match parse_entries_at(s, p2 + 1) {
                            None => None,
                            Some(rest) => Some(seq![(p, h)] + rest),
                        }
                    }
                },
            },
        }
    }
}

/// A serialized snapshot reads back as exactly the pairs it was written
/// from: the suffix of `s` from `pos` on holds the lines of `es`.
pub proof fn lemma_parse_index_text(s: Seq<char>, pos: int, es: Seq<(Seq<char>, Seq<char>)>)
    requires
        0 <= pos <= s.len(),
        s.len() <= usize::MAX,
        s.subrange(pos, s.len() as int) == index_text(es),
    ensures
        parse_entries_at(s, pos) == Some(es),
    decreases es.len(),
{
    if es.len() == 0 {
        assert(index_text(es).len() == 0);
        assert(pos == s.len());
    } else {
        let p = es[0].0;
        let h = es[0].1;
        let suffix = s.subrange(pos, s.len() as int);
        let e0 = entry_text(p, h);
        let w1 = 22 + p.len() as int;
        let w2 = 22 + h.len() as int;
        let we = w1 + w2 + 1;
        assert(suffix == e0 + index_text(es.drop_first()));
        assert(e0.len() == we);
        assert(pos + we <= s.len());
        assert forall|j: int| 0 <= j < suffix.len() implies s[pos + j] == suffix[j] by {
            assert(suffix[j] == s[pos + j]);
        }
        assert(p.len() <= usize::MAX && h.len() <= usize::MAX);
        // the path field
        assert(s.subrange(pos, pos + w1) =~= field_text(p)) by {
            assert forall|j: int| 0 <= j < w1 implies s.subrange(pos, pos + w1)[j] == field_text(
                p,
            )[j] by {
                assert(s[pos + j] == suffix[j]);
                assert(suffix[j] == e0[j]);
                assert(e0[j] == field_text(p)[j]);
            }
        }
        lemma_parse_field_text(s, pos, p);
        // the digest field
        assert(s.subrange(pos + w1, pos + w1 + w2) =~= field_text(h)) by {
            assert forall|j: int| 0 <= j < w2 implies s.subrange(pos + w1, pos + w1 + w2)[j]
                == field_text(h)[j] by {
                assert(s[pos + (w1 + j)] == suffix[w1 + j]);
                assert(suffix[w1 + j] == e0[w1 + j]);
                assert(e0[w1 + j] == field_text(h)[j]);
            }
        }
        lemma_parse_field_text(s, pos + w1, h);
        // the line feed
        assert(s[pos + (w1 + w2)] == suffix[w1 + w2]);
        assert(suffix[w1 + w2] == e0[w1 + w2]);
        assert(e0[w1 + w2] == '\n');
        // the rest
        assert(s.subrange(pos + we, s.len() as int) =~= index_text(es.drop_first())) by {
            assert forall|j: int| 0 <= j < s.len() - pos - we implies s.subrange(
                pos + we,
                s.len() as int,
            )[j] == index_text(es.drop_first())[j] by {
                assert(s[pos + (we + j)] == suffix[we + j]);
                assert(suffix[we + j] == index_text(es.drop_first())[j]);
            }
        }
        lemma_parse_index_text(s, pos + we, es.drop_first());
        assert(seq![(p, h)] + es.drop_first() =~= es);
    }
}

/// What the field reader accepts is exactly a rendered field: the consumed
/// characters are `field_text` of what it read.
pub proof fn lemma_parse_field_sound(s: Seq<char>, pos: int)
    requires
        parse_field_at(s, pos) is Some,
    ensures
        ({
            let (x, p) = parse_field_at(s, pos)->0;
            &&& 0 <= pos < p <= s.len()
            &&& p == pos + 22 + x.len()
            &&& s.subrange(pos, p) == field_text(x)
        }),
{
    let (x, p) = parse_field_at(s, pos)->0;
    let n = val20(s, pos) as int;
    assert(x == s.subrange(pos + 21, pos + 21 + n));
    assert(x.len() == n);
    crate::numerals::lemma_digits_are_dec20(s, pos);
    assert forall|j: int| 0 <= j < 22 + n implies s.subrange(pos, p)[j] == field_text(x)[j] by {
        assert(s.subrange(pos, p)[j] == s[pos + j]);
        if j < 20 {
            assert(field_text(x)[j] == dec20(x.len())[j]);
            assert(dec20(val20(s, pos))[j] == s[pos + j]);
        } else if j == 20 {
            assert(field_text(x)[j] == ' ');
            assert(s[pos + 20] == ' ');
        } else if j < 21 + n {
            assert(field_text(x)[j] == x[j - 21]);
            assert(x[j - 21] == s[pos + j]);
        } else {
            assert(field_text(x)[j] == ' ');
            assert(s[pos + 21 + n] == ' ');
        }
    }
    assert(s.subrange(pos, p) =~= field_text(x));
}

/// What the snapshot reader accepts is exactly a serialized snapshot: the
/// serialization is canonical, so a malformed record is precisely a text
/// that no staged set serializes to.
pub proof fn lemma_parse_entries_sound(s: Seq<char>, pos: int)
    requires
        0 <= pos <= s.len(),
        parse_entries_at(s, pos) is Some,
    ensures
        s.subrange(pos, s.len() as int) == index_text(parse_entries_at(s, pos)->0),
    decreases s.len() - pos,
{
    if pos == s.len() {
        assert(s.subrange(pos, s.len() as int) =~= index_text(parse_entries_at(s, pos)->0));
    } else {
        let (px, p1) = parse_field_at(s, pos)->0;
        let (hx, p2) = parse_field_at(s, p1)->0;
        lemma_parse_field_sound(s, pos);
        lemma_parse_field_sound(s, p1);
        lemma_parse_entries_sound(s, p2 + 1);
        let rest = parse_entries_at(s, p2 + 1)->0;
        let es = parse_entries_at(s, pos)->0;
        assert(es == seq![(px, hx)] + rest);
        assert(es[0] == (px, hx));
        assert(es.drop_first() =~= rest);
        assert(index_text(es) == entry_text(px, hx) + index_text(rest));
        let w1 = 22 + px.len() as int;
        let w2 = 22 + hx.len() as int;
        let et = entry_text(px, hx);
        assert(et.len() == w1 + w2 + 1);
        assert(index_text(rest).len() == s.len() - (p2 + 1));
        assert forall|j: int| 0 <= j < s.len() - pos implies s.subrange(pos, s.len() as int)[j]
            == (entry_text(px, hx) + index_text(rest))[j] by {
            assert(s.subrange(pos, s.len() as int)[j] == s[pos + j]);
            if j < w1 {
                assert(et[j] == field_text(px)[j]);
                assert(field_text(px)[j] == s.subrange(pos, p1)[j]);
                assert(s.subrange(pos, p1)[j] == s[pos + j]);
            } else if j < w1 + w2 {
                assert(et[j] == field_text(hx)[j - w1]);
                assert(field_text(hx)[j - w1] == s.subrange(p1, p2)[j - w1]);
                assert(s.subrange(p1, p2)[j - w1] == s[p1 + (j - w1)]);
            } else if j == w1 + w2 {
                assert(et[j] == '\n');
                assert(s[p2] == '\n');
            } else {
                assert((entry_text(px, hx) + index_text(rest))[j] == index_text(rest)[j - (w1 + w2
                    + 1)]);
                assert(index_text(rest)[j - (w1 + w2 + 1)] == s.subrange(p2 + 1, s.len() as int)[j
                    - (w1 + w2 + 1)]);
                assert(s.subrange(p2 + 1, s.len() as int)[j - (w1 + w2 + 1)] == s[p2 + 1 + (j - (w1
                    + w2 + 1))]);
            }
        }
        assert(s.subrange(pos, s.len() as int) =~= entry_text(px, hx) + index_text(rest));
    }
}

/// Serializes the staged entries: one length-prefixed line per entry, in
/// staging order.
pub fn index_to_text(entries: &Vec<IndexEntry>) -> (r: String)
    ensures
        r@ == index_text(entries_view(entries@)),
{
    proof {
        reveal_strlit("\n");
    }
    let mut out = String::new();
    let mut i: usize = 0;
    while i < entries.len()
        invariant
            i <= entries@.len(),
            out@ == index_text(entries_view(entries@).subrange(0, i as int)),
            "\n"@ =~= seq!['\n'],
        decreases entries@.len() - i,
    {
        let ghost prefix = entries_view(entries@).subrange(0, i as int);
        push_field(&mut out, entries[i].path.as_str());
        push_field(&mut out, entries[i].hash.as_str());
        out.append("\n");
        proof {
            let e = entries_view(entries@)[i as int];
            lemma_index_text_push(prefix, e.0, e.1);
            assert(prefix.push(e) =~= entries_view(entries@).subrange(0, i + 1 as int));
            assert(out@ =~= index_text(entries_view(entries@).subrange(0, i + 1 as int)));
        }
        i = i + 1;
    }
    proof {
        assert(entries_view(entries@).subrange(0, entries@.len() as int) =~= entries_view(
            entries@,
        ));
    }
    out
}

/// Reads a serialized snapshot back into its entries. Fails with
/// `MalformedRecord` exactly when the text is not a serialized snapshot.
pub fn parse_index(s: &str) -> (r: Result<Vec<IndexEntry>, VcsError>)
    ensures
        r matches Ok(v) ==> parse_entries_at(s@, 0) == Some(entries_view(v@)),
        r is Err ==> parse_entries_at(s@, 0) is None,
        r matches Err(e) ==> e matches VcsError::MalformedRecord(_),
{
    let n = s.unicode_len();
    let mut acc: Vec<IndexEntry> = Vec::new();
    let mut pos: usize = 0;
    proof {
        assert(entries_view(acc@) =~= Seq::<(Seq<char>, Seq<char>)>::empty());
    }
    while pos < n
        invariant
            0 <= pos <= n,
            n == s@.len(),
            parse_entries_at(s@, pos as int) matches Some(rest) ==> parse_entries_at(s@, 0)
                == Some(entries_view(acc@) + rest),
            parse_entries_at(s@, pos as int) is None ==> parse_entries_at(s@, 0) is None,
        decreases n - pos,
    {
        let ghost old_acc = entries_view(acc@);
        let (path, p1) = match parse_field(s, pos) {
            None => {
                return Err(VcsError::MalformedRecord(String::from_str(s)));
            },
            Some(x) => x,
        };
        assert(p1 <= s@.len());
        let (hash, p2) = match parse_field(s, p1) {
            None => {
                return Err(VcsError::MalformedRecord(String::from_str(s)));
            },
            Some(x) => x,
        };
        assert(p2 <= s@.len());
        if p2 == n || s.get_char(p2) != '\n' {
            return Err(VcsError::MalformedRecord(String::from_str(s)));
        }
        acc.push(IndexEntry { path, hash });
        proof {
            assert(entries_view(acc@) =~= old_acc.push((path@, hash@)));
            let rest_opt = parse_entries_at(s@, p2 + 1 as int);
            match rest_opt {
                Some(rest) => {
                    assert(parse_entries_at(s@, pos as int) == Some(seq![(path@, hash@)] + rest));
                    assert(old_acc + (seq![(path@, hash@)] + rest) =~= entries_view(acc@) + rest);
                },
                None => {
                    assert(parse_entries_at(s@, pos as int) is None);
                },
            }
        }
        pos = p2 + 1;
    }
    proof {
        assert(parse_entries_at(s@, pos as int) == Some(Seq::<(Seq<char>, Seq<char>)>::empty()));
        assert(entries_view(acc@) + Seq::<(Seq<char>, Seq<char>)>::empty() =~= entries_view(acc@));
    }
    Ok(acc)
}

} // verus!
