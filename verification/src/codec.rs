//! The registry file format: one line per record, fields separated by
//! tabs, each field escaped so that backslashes, tabs and newlines in a
//! path survive the trip to disk and back. Decoding refuses malformed
//! text, so a corrupt registry surfaces as an error instead of a guess.

use crate::registry::{LinkRecord, LinkRecordV, LinkRegistry};
use vstd::prelude::*;

verus! {

/// How one character is written in a field: separators and the escape
/// character itself hide behind a backslash.
pub open spec fn esc_char(c: char) -> Seq<char> {
    if c == '\\' {
        seq!['\\', '\\']
    } else if c == '\n' {
        seq!['\\', 'n']
    } else if c == '\t' {
        seq!['\\', 't']
    } else {
        seq![c]
    }
}

/// A field as written to disk.
pub open spec fn esc(s: Seq<char>) -> Seq<char>
    decreases s.len(),
{
    if s.len() == 0 {
        Seq::empty()
    } else {
        esc_char(s[0]) + esc(s.drop_first())
    }
}

proof fn lemma_esc_snoc(s: Seq<char>, c: char)
    ensures
        esc(s.push(c)) == esc(s) + esc_char(c),
    decreases s.len(),
{
    if s.len() == 0 {
        assert(s.push(c).drop_first() =~= Seq::<char>::empty());
        assert(esc(Seq::<char>::empty()) == Seq::<char>::empty());
        assert(esc(s.push(c)) =~= esc_char(c));
        assert(esc(s) + esc_char(c) =~= esc_char(c));
    } else {
        assert(s.push(c).drop_first() =~= s.drop_first().push(c));
        lemma_esc_snoc(s.drop_first(), c);
        assert(esc_char(s[0]) + (esc(s.drop_first()) + esc_char(c)) =~= (esc_char(s[0]) + esc(
            s.drop_first(),
        )) + esc_char(c));
    }
}

/// Escaped text holds no raw separator.
proof fn lemma_esc_no_separators(s: Seq<char>)
    ensures
        forall|i: int| 0 <= i < esc(s).len() ==> esc(s)[i] != '\n' && esc(s)[i] != '\t',
    decreases s.len(),
{
    if s.len() == 0 {
    } else {
        lemma_esc_no_separators(s.drop_first());
        assert forall|i: int|
            0 <= i < esc(s).len() implies esc(s)[i] != '\n' && esc(s)[i] != '\t' by {
            let head = esc_char(s[0]);
            if i >= head.len() {
                assert(esc(s)[i] == esc(s.drop_first())[i - head.len()]);
            }
        }
    }
}

/// What a field read from disk means, or nothing if the text is not a
/// valid escaping.
pub open spec fn unesc(s: Seq<char>) -> Option<Seq<char>>
    decreases s.len(),
{
    if s.len() == 0 {
        Some(Seq::empty())
    } else if s[0] == '\\' {
        if s.len() == 1 {
            None
        } else {
            let c = s[1];
            let decoded = if c == '\\' {
                '\\'
            } else if c == 'n' {
                '\n'
            } else {
                '\t'
            };
            if c == '\\' || c == 'n' || c == 't' {
                match unesc(s.skip(2)) {
                    Some(r) => Some(seq![decoded] + r),
                    None => None,
                }
            } else {
                None
            }
        }
    } else {
        match unesc(s.drop_first()) {
            Some(r) => Some(seq![s[0]] + r),
            None => None,
        }
    }
}

/// Law: unescaping undoes escaping, for every field.
pub proof fn lemma_unesc_esc(s: Seq<char>)
    ensures
        unesc(esc(s)) == Some(s),
    decreases s.len(),
{
    if s.len() == 0 {
    } else {
        lemma_unesc_esc(s.drop_first());
        let e = esc(s);
        let head = esc_char(s[0]);
        assert(e == head + esc(s.drop_first()));
        if s[0] == '\\' || s[0] == '\n' || s[0] == '\t' {
            assert(e[0] == '\\');
            assert(e.len() >= 2);
            assert(e.skip(2) =~= esc(s.drop_first()));
            assert(unesc(e) == Some(seq![s[0]] + s.drop_first()));
            assert(seq![s[0]] + s.drop_first() =~= s);
        } else {
            assert(e[0] == s[0]);
            assert(e[0] != '\\');
            assert(e.drop_first() =~= esc(s.drop_first()));
            assert(unesc(e) == Some(seq![s[0]] + s.drop_first()));
            assert(seq![s[0]] + s.drop_first() =~= s);
        }
    }
}

/// The position of the first `c` in `s`, or the length of `s` if there
/// is none.
pub open spec fn find_first(s: Seq<char>, c: char) -> int
    decreases s.len(),
{
    if s.len() == 0 {
        0
    } else if s[0] == c {
        0
    } else {
        1 + find_first(s.drop_first(), c)
    }
}

proof fn lemma_find_first_is(s: Seq<char>, c: char, i: int)
    requires
        0 <= i <= s.len(),
        forall|t: int| 0 <= t < i ==> s[t] != c,
        i == s.len() || s[i] == c,
    ensures
        find_first(s, c) == i,
    decreases i,
{
    if i == 0 {
    } else {
        assert(s[0] != c);
        lemma_find_first_is(s.drop_first(), c, i - 1);
    }
}

/// One record's line, without its terminating newline.
pub open spec fn line_of(r: LinkRecordV) -> Seq<char> {
    esc(r.package) + seq!['\t'] + esc(r.origin) + seq!['\t'] + esc(r.symlink)
}

/// One record as written to disk.
pub open spec fn encode_record(r: LinkRecordV) -> Seq<char> {
    line_of(r) + seq!['\n']
}

/// The whole registry as written to disk.
pub open spec fn encode_records(rs: Seq<LinkRecordV>) -> Seq<char>
    decreases rs.len(),
{
    if rs.len() == 0 {
        Seq::empty()
    } else {
        encode_record(rs[0]) + encode_records(rs.drop_first())
    }
}

proof fn lemma_encode_records_snoc(rs: Seq<LinkRecordV>, r: LinkRecordV)
    ensures
        encode_records(rs.push(r)) == encode_records(rs) + encode_record(r),
    decreases rs.len(),
{
    if rs.len() == 0 {
        assert(rs.push(r).drop_first() =~= Seq::<LinkRecordV>::empty());
        assert(encode_records(Seq::<LinkRecordV>::empty()) == Seq::<char>::empty());
        assert(encode_records(rs.push(r)) =~= encode_record(r));
        assert(encode_records(rs) + encode_record(r) =~= encode_record(r));
    } else {
        assert(rs.push(r).drop_first() =~= rs.drop_first().push(r));
        lemma_encode_records_snoc(rs.drop_first(), r);
        assert(encode_record(rs[0]) + (encode_records(rs.drop_first()) + encode_record(r))
            =~= (encode_record(rs[0]) + encode_records(rs.drop_first())) + encode_record(r));
    }
}

/// What one line of the file means, or nothing if it does not hold
/// exactly three validly escaped fields.
pub open spec fn spec_decode_line(line: Seq<char>) -> Option<LinkRecordV> {
    let j1 = find_first(line, '\t');
    if !(0 <= j1 < line.len()) {
        None
    } else {
        let f1 = line.take(j1);
        let rest = line.skip(j1 + 1);
        let j2 = find_first(rest, '\t');
        if !(0 <= j2 < rest.len()) {
            None
        } else {
            let f2 = rest.take(j2);
            let f3 = rest.skip(j2 + 1);
            if find_first(f3, '\t') != f3.len() {
                None
            } else {
                match (unesc(f1), unesc(f2), unesc(f3)) {
                    (Some(p), Some(o), Some(l)) => Some(
                        LinkRecordV { package: p, origin: o, symlink: l },
                    ),
                    _ => None,
                }
            }
        }
    }
}

/// What a whole registry file means: a record per newline-terminated
/// line, or nothing if any line is malformed or unterminated.
pub open spec fn spec_decode(s: Seq<char>) -> Option<Seq<LinkRecordV>>
    decreases s.len(),
{
    if s.len() == 0 {
        Some(Seq::empty())
    } else {
        let j = find_first(s, '\n');
        if !(0 <= j < s.len()) {
            None
        } else {
            match spec_decode_line(s.take(j)) {
                None => None,
                Some(rec) => match spec_decode(s.skip(j + 1)) {
                    None => None,
                    Some(rest) => Some(seq![rec] + rest),
                },
            }
        }
    }
}

proof fn lemma_decode_line_of(r: LinkRecordV)
    ensures
        spec_decode_line(line_of(r)) == Some(r),
{
    let line = line_of(r);
    let e1 = esc(r.package);
    let e2 = esc(r.origin);
    let e3 = esc(r.symlink);
    lemma_esc_no_separators(r.package);
    lemma_esc_no_separators(r.origin);
    lemma_esc_no_separators(r.symlink);
    assert(line.len() == e1.len() + 1 + e2.len() + 1 + e3.len());
    assert forall|t: int| 0 <= t < e1.len() implies line[t] != '\t' by {
        assert(line[t] == e1[t]);
    }
    assert(line[e1.len() as int] == '\t');
    lemma_find_first_is(line, '\t', e1.len() as int);
    assert(line.take(e1.len() as int) =~= e1);
    let rest = line.skip(e1.len() as int + 1);
    assert(rest =~= e2 + seq!['\t'] + e3);
    assert forall|t: int| 0 <= t < e2.len() implies rest[t] != '\t' by {
        assert(rest[t] == e2[t]);
    }
    assert(rest[e2.len() as int] == '\t');
    lemma_find_first_is(rest, '\t', e2.len() as int);
    assert(rest.take(e2.len() as int) =~= e2);
    let f3 = rest.skip(e2.len() as int + 1);
    assert(f3 =~= e3);
    lemma_find_first_is(f3, '\t', f3.len() as int);
    lemma_unesc_esc(r.package);
    lemma_unesc_esc(r.origin);
    lemma_unesc_esc(r.symlink);
    assert(spec_decode_line(line) == Some(r));
}

/// Law: decoding undoes encoding: the registry file round-trips
/// losslessly through its on-disk form.
pub proof fn lemma_registry_round_trip(rs: Seq<LinkRecordV>)
    ensures
        spec_decode(encode_records(rs)) == Some(rs),
    decreases rs.len(),
{
    if rs.len() == 0 {
    } else {
        let s = encode_records(rs);
        let line = line_of(rs[0]);
        let tail = encode_records(rs.drop_first());
        assert(s == (line + seq!['\n']) + tail);
        lemma_esc_no_separators(rs[0].package);
        lemma_esc_no_separators(rs[0].origin);
        lemma_esc_no_separators(rs[0].symlink);
        assert forall|t: int| 0 <= t < line.len() implies s[t] != '\n' by {
            assert(s[t] == line[t]);
            let e1 = esc(rs[0].package);
            let e2 = esc(rs[0].origin);
            if t < e1.len() {
                assert(line[t] == e1[t]);
            } else if t == e1.len() {
                assert(line[t] == '\t');
            } else if t < e1.len() + 1 + e2.len() {
                assert(line[t] == e2[t - e1.len() - 1]);
            } else if t == e1.len() + 1 + e2.len() {
                assert(line[t] == '\t');
            } else {
                assert(line[t] == esc(rs[0].symlink)[t - e1.len() - 1 - e2.len() - 1]);
            }
        }
        assert(s[line.len() as int] == '\n');
        lemma_find_first_is(s, '\n', line.len() as int);
        assert(s.take(line.len() as int) =~= line);
        lemma_decode_line_of(rs[0]);
        assert(s.skip(line.len() as int + 1) =~= tail);
        lemma_registry_round_trip(rs.drop_first());
        assert(seq![rs[0]] + rs.drop_first() =~= rs);
    }
}

/// Writes one field in its escaped on-disk form.
fn escape(s: &str) -> (r: String)
    ensures
        r@ == esc(s@),
{
    let n = s.unicode_len();
    let mut r = String::new();
    let mut i: usize = 0;
    proof {
        assert(s@.subrange(0, 0) =~= Seq::<char>::empty());
    }
    while i < n
        invariant
            i <= n,
            n == s@.len(),
            r@ == esc(s@.subrange(0, i as int)),
        decreases n - i,
    {
        let ghost pre = s@.subrange(0, i as int);
        let c = s.get_char(i);
        if c == '\\' {
            r.append("\\\\");
        } else if c == '\n' {
            r.append("\\n");
        } else if c == '\t' {
            r.append("\\t");
        } else {
            let piece = s.substring_char(i, i + 1);
            assert(piece@ =~= seq![c]);
            r.append(piece);
        }
        proof {
            reveal_strlit("\\\\");
            reveal_strlit("\\n");
            reveal_strlit("\\t");
            assert(r@ == esc(pre) + esc_char(s@[i as int])) by {
                if c == '\\' {
                    assert("\\\\"@ =~= esc_char(c));
                } else if c == '\n' {
                    assert("\\n"@ =~= esc_char(c));
                } else if c == '\t' {
                    assert("\\t"@ =~= esc_char(c));
                } else {
                    assert(seq![c] =~= esc_char(c));
                }
            }
            lemma_esc_snoc(pre, s@[i as int]);
            assert(pre.push(s@[i as int]) =~= s@.subrange(0, i as int + 1));
        }
        i = i + 1;
    }
    proof {
        assert(s@.subrange(0, n as int) =~= s@);
    }
    r
}

/// Writes the whole registry in its on-disk form.
pub fn encode_registry(reg: &LinkRegistry) -> (r: String)
    ensures
        r@ == encode_records(reg@),
{
    let records = reg.list_records();
    let mut r = String::new();
    let mut i: usize = 0;
    proof {
        assert(reg@.subrange(0, 0) =~= Seq::<LinkRecordV>::empty());
    }
    while i < records.len()
        invariant
            i <= records.len(),
            records.deep_view() == reg@,
            r@ == encode_records(reg@.subrange(0, i as int)),
        decreases records.len() - i,
    {
        let ghost pre = reg@.subrange(0, i as int);
        proof {
            assert(reg@[i as int] == records@[i as int]@);
        }
        r.append(escape(records[i].package.as_str()).as_str());
        r.append("\t");
        r.append(escape(records[i].origin.as_str()).as_str());
        r.append("\t");
        r.append(escape(records[i].symlink.as_str()).as_str());
        r.append("\n");
        proof {
            reveal_strlit("\t");
            reveal_strlit("\n");
            assert("\t"@ =~= seq!['\t']);
            assert("\n"@ =~= seq!['\n']);
            assert(r@ == encode_records(pre) + encode_record(reg@[i as int]));
            lemma_encode_records_snoc(pre, reg@[i as int]);
            assert(pre.push(reg@[i as int]) =~= reg@.subrange(0, i as int + 1));
        }
        i = i + 1;
    }
    proof {
        assert(reg@.subrange(0, reg@.len() as int) =~= reg@);
    }
    r
}

/// Finds the first occurrence of `c`, reporting the string's length if
/// there is none.
fn find_char(s: &str, c: char) -> (j: usize)
    ensures
        j as int == find_first(s@, c),
        j <= s@.len(),
        j < s@.len() ==> s@[j as int] == c,
        forall|t: int| 0 <= t < j ==> s@[t] != c,
{
    let n = s.unicode_len();
    let mut i: usize = 0;
    while i < n && s.get_char(i) != c
        invariant
            i <= n,
            n == s@.len(),
            forall|t: int| 0 <= t < i ==> s@[t] != c,
        decreases n - i,
    {
        i = i + 1;
    }
    proof {
        lemma_find_first_is(s@, c, i as int);
    }
    i
}

/// Reads one escaped field back, or nothing if the text is malformed.
fn unescape(s: &str) -> (r: Option<String>)
    ensures
        r is Some <==> unesc(s@) is Some,
        r is Some ==> r.unwrap()@ == unesc(s@).unwrap(),
    decreases s@.len(),
{
    let n = s.unicode_len();
    if n == 0 {
        return Some(String::new());
    }
    let c0 = s.get_char(0);
    if c0 == '\\' {
        if n == 1 {
            return None;
        }
        let c1 = s.get_char(1);
        let head: &str = if c1 == '\\' {
            "\\"
        } else if c1 == 'n' {
            "\n"
        } else if c1 == 't' {
            "\t"
        } else {
            return None;
        };
        proof {
            reveal_strlit("\\");
            reveal_strlit("\n");
            reveal_strlit("\t");
        }
        let rest = s.substring_char(2, n);
        assert(rest@ =~= s@.skip(2));
        match unescape(rest) {
            None => None,
            Some(tail) => {
                let mut out = head.to_owned();
                out.append(tail.as_str());
                proof {
                    let decoded = if s@[1] == '\\' {
                        '\\'
                    } else if s@[1] == 'n' {
                        '\n'
                    } else {
                        '\t'
                    };
                    assert(head@ =~= seq![decoded]);
                    assert(out@ == unesc(s@).unwrap());
                }
                Some(out)
            },
        }
    } else {
        let head = s.substring_char(0, 1);
        assert(head@ =~= seq![s@[0]]);
        let rest = s.substring_char(1, n);
        assert(rest@ =~= s@.drop_first());
        match unescape(rest) {
            None => None,
            Some(tail) => {
                let mut out = head.to_owned();
                out.append(tail.as_str());
                assert(out@ == unesc(s@).unwrap());
                Some(out)
            },
        }
    }
}

/// Reads one line of the file back into a record, or nothing if the
/// line is malformed.
fn decode_line(line: &str) -> (r: Option<LinkRecord>)
    ensures
        r is Some <==> spec_decode_line(line@) is Some,
        r is Some ==> r.unwrap()@ == spec_decode_line(line@).unwrap(),
{
    let n = line.unicode_len();
    let j1 = find_char(line, '\t');
    if j1 >= n {
        return None;
    }
    let f1 = line.substring_char(0, j1);
    assert(f1@ =~= line@.take(j1 as int));
    let rest = line.substring_char(j1 + 1, n);
    assert(rest@ =~= line@.skip(j1 + 1));
    let m = rest.unicode_len();
    let j2 = find_char(rest, '\t');
    if j2 >= m {
        return None;
    }
    let f2 = rest.substring_char(0, j2);
    assert(f2@ =~= rest@.take(j2 as int));
    let f3 = rest.substring_char(j2 + 1, m);
    assert(f3@ =~= rest@.skip(j2 + 1));
    let j3 = find_char(f3, '\t');
    if j3 < f3.unicode_len() {
        return None;
    }
    let package = match unescape(f1) {
        Some(p) => p,
        None => {
            return None;
        },
    };
    let origin = match unescape(f2) {
        Some(o) => o,
        None => {
            return None;
        },
    };
    let symlink = match unescape(f3) {
        Some(l) => l,
        None => {
            return None;
        },
    };
    Some(LinkRecord { package, origin, symlink })
}

/// Reads a whole registry file back, or nothing if the text is not a
/// well-formed registry: the caller treats that as a corrupt registry
/// and refuses to guess.
pub fn decode_registry(s: &str) -> (r: Option<LinkRegistry>)
    ensures
        r is Some <==> spec_decode(s@) is Some,
        r is Some ==> r.unwrap()@ == spec_decode(s@).unwrap(),
{
    let mut cur: &str = s;
    let mut out: Vec<LinkRecord> = Vec::new();
    proof {
        assert(out.deep_view() =~= Seq::<LinkRecordV>::empty());
        if spec_decode(s@) is Some {
            assert(spec_decode(s@).unwrap() =~= out.deep_view() + spec_decode(s@).unwrap());
        }
    }
    loop
        invariant
            spec_decode(s@) is Some <==> spec_decode(cur@) is Some,
            spec_decode(s@) is Some ==> spec_decode(s@).unwrap() == out.deep_view()
                + spec_decode(cur@).unwrap(),
        decreases cur@.len(),
    {
        let n = cur.unicode_len();
        if n == 0 {
            proof {
                if spec_decode(s@) is Some {
                    assert(spec_decode(s@).unwrap() =~= out.deep_view());
                }
            }
            return Some(LinkRegistry::from_records(out));
        }
        let j = find_char(cur, '\n');
        if j >= n {
            return None;
        }
        let line = cur.substring_char(0, j);
        assert(line@ =~= cur@.take(j as int));
        let rec = match decode_line(line) {
            Some(rec) => rec,
            None => {
                return None;
            },
        };
        let next = cur.substring_char(j + 1, n);
        assert(next@ =~= cur@.skip(j + 1));
        let ghost out0 = out@;
        let ghost dv0 = out.deep_view();
        let ghost cur0 = cur@;
        out.push(rec);
        cur = next;
        proof {
            assert(out@ == out0.push(rec));
            assert(out.deep_view() =~= dv0.push(rec@)) by {
                assert(forall|t: int| 0 <= t < out0.len() ==> out@[t] == out0[t]);
            }
            // one line of the file was consumed
            assert(spec_decode_line(cur0.take(j as int)) == Some(rec@));
            assert(spec_decode(cur0) == match spec_decode(cur@) {
                None => None::<Seq<LinkRecordV>>,
                Some(rest) => Some(seq![rec@] + rest),
            });
            if spec_decode(s@) is Some {
                assert(dv0 + (seq![rec@] + spec_decode(cur@).unwrap()) =~= dv0.push(rec@)
                    + spec_decode(cur@).unwrap());
            }
        }
    }
}

} // verus!
