//! The exporter: deterministic serialization of the metrics registry
//! to the textual exposition format read by a pull-based scraper.
//!
//! Families are emitted in a fixed order, the gauge family first and
//! the event counter second; gauge samples appear sorted by device
//! identifier, so byte-identical registry state yields byte-identical
//! output regardless of insertion order.

use vstd::prelude::*;

use crate::registry::GaugeFamily;
use crate::text::{all_digits, dec_value, is_digit, is_prefix, lemma_spec_dec_digits,
    spec_dec, str_starts_with, u64_to_dec};

verus! {

/// The HELP and TYPE comment lines of the gauge family.
pub open spec fn spec_gauge_header() -> Seq<char> {
    "# HELP disk_status Status of the disk (1=active, 0=standby)\n# TYPE disk_status gauge\n"@
}

/// One gauge sample line.
pub open spec fn spec_sample_line(name: Seq<char>, value: u64) -> Seq<char> {
    "disk_status{disk=\""@ + name + "\"} "@ + spec_dec(value as nat) + "\n"@
}

/// The sample lines of a gauge family, in entry order.
pub open spec fn spec_gauge_lines(entries: Seq<(Seq<char>, u64)>) -> Seq<char>
    decreases entries.len(),
{
    if entries.len() == 0 {
        Seq::empty()
    } else {
        spec_gauge_lines(entries.drop_last()) + spec_sample_line(
            entries.last().0,
            entries.last().1,
        )
    }
}

/// The serialized gauge family: comment lines, then samples.
pub open spec fn spec_gauge_block(entries: Seq<(Seq<char>, u64)>) -> Seq<char> {
    spec_gauge_header() + spec_gauge_lines(entries)
}

/// The HELP and TYPE comment lines of the event counter, followed by
/// its single sample line.
pub open spec fn spec_counter_block(counter: u64) -> Seq<char> {
    "# HELP notify_events Number of events for watched directories\n# TYPE notify_events counter\nnotify_events "@
        + spec_dec(counter as nat) + "\n"@
}

/// The full serialized registry: gauge family, then counter family.
pub open spec fn spec_exposition(entries: Seq<(Seq<char>, u64)>, counter: u64) -> Seq<char> {
    spec_gauge_block(entries) + spec_counter_block(counter)
}

/// A digit character is neither a line feed nor a quote.
proof fn lemma_digit_not_special(c: char)
    requires
        is_digit(c),
    ensures
        c != '\n' && c != '"',
{
}

/// A sequence is a prefix of itself followed by anything.
proof fn lemma_prefix_of_concat(p: Seq<char>, b: Seq<char>)
    ensures
        is_prefix(p, p + b),
{
    assert((p + b).subrange(0, p.len() as int) =~= p);
}

/// The front unfolding of the sample lines: the first entry's line,
/// then the lines of the rest.
proof fn lemma_gauge_lines_front(entries: Seq<(Seq<char>, u64)>)
    requires
        entries.len() > 0,
    ensures
        spec_gauge_lines(entries) == spec_sample_line(entries[0].0, entries[0].1)
            + spec_gauge_lines(entries.skip(1)),
    decreases entries.len(),
{
    if entries.len() == 1 {
        assert(entries.drop_last() =~= Seq::<(Seq<char>, u64)>::empty());
        assert(entries.skip(1) =~= Seq::<(Seq<char>, u64)>::empty());
        assert(spec_gauge_lines(Seq::<(Seq<char>, u64)>::empty()) == Seq::<char>::empty());
        assert(entries.last() == entries[0]);
        assert(Seq::<char>::empty() + spec_sample_line(entries[0].0, entries[0].1)
            =~= spec_sample_line(entries[0].0, entries[0].1) + Seq::<char>::empty());
    } else {
        let d = entries.drop_last();
        lemma_gauge_lines_front(d);
        assert(d[0] == entries[0]);
        assert(d.skip(1) =~= entries.skip(1).drop_last());
        assert(entries.skip(1).last() == entries.last());
        assert(spec_gauge_lines(entries) == (spec_sample_line(entries[0].0, entries[0].1)
            + spec_gauge_lines(entries.skip(1).drop_last())) + spec_sample_line(
            entries.last().0,
            entries.last().1,
        ));
        assert((spec_sample_line(entries[0].0, entries[0].1) + spec_gauge_lines(
            entries.skip(1).drop_last(),
        )) + spec_sample_line(entries.last().0, entries.last().1) =~= spec_sample_line(
            entries[0].0,
            entries[0].1,
        ) + (spec_gauge_lines(entries.skip(1).drop_last()) + spec_sample_line(
            entries.skip(1).last().0,
            entries.skip(1).last().1,
        )));
        assert(spec_gauge_lines(entries.skip(1)) == spec_gauge_lines(entries.skip(1).drop_last())
            + spec_sample_line(entries.skip(1).last().0, entries.skip(1).last().1));
    }
}

/// Reading back one serialized sample line, followed by anything:
/// the line parses to its entry, and the first line feed of the
/// whole text ends it.
proof fn lemma_sample_line_round_trip(name: Seq<char>, value: u64, tail: Seq<char>)
    requires
        !name.contains('"'),
        !name.contains('\n'),
    ensures
        ({
            let s = spec_sample_line(name, value) + tail;
            let body = "disk_status{disk=\""@ + name + "\"} "@ + spec_dec(value as nat);
            &&& s.len() == body.len() + 1 + tail.len()
            &&& first_index(s, '\n') == body.len()
            &&& s.take(body.len() as int) == body
            &&& s.skip(body.len() as int + 1) == tail
            &&& spec_parse_sample_line(body) == Some((name, value))
            &&& is_prefix("disk_status{disk=\""@, s)
        }),
{
    let sp = "disk_status{disk=\""@;
    let q3 = "\"} "@;
    let dec = spec_dec(value as nat);
    let body = sp + name + q3 + dec;
    let line = spec_sample_line(name, value);
    let s = line + tail;
    reveal_strlit("disk_status{disk=\"");
    reveal_strlit("\"} ");
    reveal_strlit("\n");
    lemma_spec_dec_digits(value as nat);
    assert(line =~= body + "\n"@);
    assert(s =~= body + ("\n"@ + tail));
    // Character classes of the body: no line feed anywhere, and the
    // first quote stands right after the name.
    assert forall|j: int| 0 <= j < body.len() implies body[j] != '\n' by {
        if j < sp.len() {
            assert(body[j] == sp[j]);
        } else if j < sp.len() + name.len() {
            assert(body[j] == name[j - sp.len()]);
            assert(!name.contains(name[j - sp.len()]) ==> false);
        } else if j < sp.len() + name.len() + q3.len() {
            assert(body[j] == q3[j - sp.len() - name.len()]);
        } else {
            assert(body[j] == dec[j - sp.len() - name.len() - q3.len()]);
            lemma_digit_not_special(dec[j - sp.len() - name.len() - q3.len()]);
        }
    }
    assert(s[body.len() as int] == '\n') by {
        assert(("\n"@ + tail)[0] == '\n');
    }
    assert forall|j: int| 0 <= j < body.len() implies s[j] != '\n' by {
        assert(s[j] == body[j]);
    }
    lemma_first_index_found(s, '\n', body.len() as int);
    assert(s.take(body.len() as int) =~= body);
    assert(s.skip(body.len() as int + 1) =~= tail);
    lemma_prefix_of_concat(sp, name + q3 + dec + ("\n"@ + tail));
    assert(sp + (name + q3 + dec + ("\n"@ + tail)) =~= s);
    assert(is_prefix(sp, s));
    // Now the parse of the bare line.
    lemma_prefix_of_concat(sp, name + q3 + dec);
    assert(sp + (name + q3 + dec) =~= body);
    assert(is_prefix(sp, body));
    let t = body.skip(sp.len() as int);
    assert(t =~= name + q3 + dec);
    assert forall|j: int| 0 <= j < name.len() implies t[j] != '"' by {
        assert(t[j] == name[j]);
        assert(!name.contains(name[j]) ==> false);
    }
    assert(t[name.len() as int] == '"') by {
        assert(t[name.len() as int] == q3[0]);
    }
    lemma_first_index_found(t, '"', name.len() as int);
    assert(t.take(name.len() as int) =~= name);
    let u = t.skip(name.len() as int);
    assert(u =~= q3 + dec);
    lemma_prefix_of_concat(q3, dec);
    assert(is_prefix(q3, u));
    let ds = u.skip(q3.len() as int);
    assert(ds =~= dec);
    assert(dec_value(ds) == value as nat);
    assert(spec_parse_sample_line(body) == Some((name, value)));
}

/// Reading back the serialized sample lines followed by any text
/// that is not itself a sample line: the entries come back exactly,
/// with that text as the rest.
proof fn lemma_parse_samples_round_trip(entries: Seq<(Seq<char>, u64)>, rest: Seq<char>)
    requires
        forall|i: int|
            0 <= i < entries.len() ==> !(#[trigger] entries[i]).0.contains('"') && !entries[i].0.contains('\n'),
        !is_prefix("disk_status{disk=\""@, rest),
    ensures
        spec_parse_samples(spec_gauge_lines(entries) + rest) == Some((entries, rest)),
    decreases entries.len(),
{
    if entries.len() == 0 {
        assert(spec_gauge_lines(entries) == Seq::<char>::empty());
        assert(spec_gauge_lines(entries) + rest =~= rest);
    } else {
        let name = entries[0].0;
        let value = entries[0].1;
        lemma_gauge_lines_front(entries);
        let tail = spec_gauge_lines(entries.skip(1)) + rest;
        let s = spec_gauge_lines(entries) + rest;
        assert(s =~= spec_sample_line(name, value) + tail);
        lemma_sample_line_round_trip(name, value, tail);
        let body = "disk_status{disk=\""@ + name + "\"} "@ + spec_dec(value as nat);
        assert(forall|i: int|
            0 <= i < entries.skip(1).len() ==> #[trigger] entries.skip(1)[i] == entries[i + 1]);
        lemma_parse_samples_round_trip(entries.skip(1), rest);
        assert(spec_parse_samples(s.skip(body.len() as int + 1)) == Some((entries.skip(1), rest)));
        assert(spec_parse_sample_line(s.take(body.len() as int)) == Some((name, value)));
        assert(0 <= first_index(s, '\n') < s.len());
        assert(spec_parse_samples(s) == Some(
            (seq![(name, value)] + entries.skip(1), rest),
        ));
        assert(seq![(name, value)] + entries.skip(1) =~= entries);
    }
}

/// Round trip: serializing a registry and reading the text back with
/// the exposition parser reproduces the same gauge entries and the
/// same counter value, whatever order the entries were built in.
///
/// The device identifiers must be free of quote and line-feed
/// characters, which the exposition format cannot carry.
#[verifier::rlimit(100)]
pub proof fn lemma_exposition_round_trip(entries: Seq<(Seq<char>, u64)>, counter: u64)
    requires
        forall|i: int|
            0 <= i < entries.len() ==> !(#[trigger] entries[i]).0.contains('"') && !entries[i].0.contains('\n'),
    ensures
        spec_parse_exposition(spec_exposition(entries, counter)) == Some((entries, counter)),
{
    let gh = spec_gauge_header();
    let lines = spec_gauge_lines(entries);
    let cb = spec_counter_block(counter);
    let cp =
        "# HELP notify_events Number of events for watched directories\n# TYPE notify_events counter\nnotify_events "@;
    let dec = spec_dec(counter as nat);
    let s = spec_exposition(entries, counter);
    reveal_strlit(
        "# HELP disk_status Status of the disk (1=active, 0=standby)\n# TYPE disk_status gauge\n",
    );
    reveal_strlit(
        "# HELP notify_events Number of events for watched directories\n# TYPE notify_events counter\nnotify_events ",
    );
    reveal_strlit("disk_status{disk=\"");
    reveal_strlit("\n");
    lemma_spec_dec_digits(counter as nat);
    assert(s =~= gh + (lines + cb));
    lemma_prefix_of_concat(gh, lines + cb);
    assert(is_prefix(gh, s));
    assert(s.skip(gh.len() as int) =~= lines + cb);
    assert(!is_prefix("disk_status{disk=\""@, cb)) by {
        assert(cb[0] == cp[0]);
        assert(cb.subrange(0, "disk_status{disk=\""@.len() as int)[0] == cb[0]);
    }
    lemma_parse_samples_round_trip(entries, cb);
    assert(spec_parse_samples(s.skip(gh.len() as int)) == Some((entries, cb)));
    assert(cb =~= cp + (dec + "\n"@));
    lemma_prefix_of_concat(cp, dec + "\n"@);
    assert(is_prefix(cp, cb));
    let ds0 = cb.skip(cp.len() as int);
    assert(ds0 =~= dec + "\n"@);
    assert forall|j: int| 0 <= j < dec.len() implies ds0[j] != '\n' by {
        assert(ds0[j] == dec[j]);
        lemma_digit_not_special(dec[j]);
    }
    assert(ds0[dec.len() as int] == '\n') by {
        assert(ds0[dec.len() as int] == "\n"@[0]);
    }
    lemma_first_index_found(ds0, '\n', dec.len() as int);
    assert(ds0.take(dec.len() as int) =~= dec);
    assert(ds0.skip(dec.len() as int + 1) =~= Seq::<char>::empty());
    assert(dec_value(dec) == counter as nat);
    assert(spec_parse_exposition(s) == Some((entries, counter)));
}

/// Reads one sample line back into its device identifier and value.
fn parse_sample_line(line: &str) -> (r: Option<(String, u64)>)
    ensures
        match r {
            Some(entry) => spec_parse_sample_line(line@) == Some((entry.0@, entry.1)),
            None => spec_parse_sample_line(line@) is None,
        },
{
    let sp = "disk_status{disk=\"";
    if !str_starts_with(line, sp) {
        return None;
    }
    let sp_len = sp.unicode_len();
    let line_len = line.unicode_len();
    let t = line.substring_char(sp_len, line_len);
    proof {
        assert(t@ =~= line@.skip(sp@.len() as int));
    }
    let q = match find_first(t, '"') {
        Some(q) => q,
        None => {
            return None;
        },
    };
    let t_len = line_len - sp_len;
    let name = t.substring_char(0, q).to_owned();
    let u = t.substring_char(q, t_len);
    proof {
        assert(name@ =~= t@.take(q as int));
        assert(u@ =~= t@.skip(q as int));
    }
    if !str_starts_with(u, "\"} ") {
        return None;
    }
    let q3_len = "\"} ".unicode_len();
    let u_len = t_len - q;
    let ds = u.substring_char(q3_len, u_len);
    proof {
        assert(ds@ =~= u@.skip("\"} "@.len() as int));
    }
    match crate::text::parse_u64_digits(ds) {
        Some(value) => Some((name, value)),
        None => None,
    }
}

/// Reads a serialized registry back: the gauge entries in sample
/// order and the counter value. Accepts exactly the texts that this
/// exporter writes, as [`spec_parse_exposition`] describes them.
pub fn parse_exposition(s: &str) -> (r: Option<(Vec<(String, u64)>, u64)>)
    ensures
        match r {
            Some(parsed) => spec_parse_exposition(s@) == Some((parsed.0.deep_view(), parsed.1)),
            None => spec_parse_exposition(s@) is None,
        },
{
    let header =
        "# HELP disk_status Status of the disk (1=active, 0=standby)\n# TYPE disk_status gauge\n";
    if !str_starts_with(s, header) {
        return None;
    }
    let h_len = header.unicode_len();
    let s_len = s.unicode_len();
    let mut rest = s.substring_char(h_len, s_len);
    let ghost s1 = s@.skip(spec_gauge_header().len() as int);
    proof {
        assert(rest@ =~= s1);
    }
    let mut entries: Vec<(String, u64)> = Vec::new();
    proof {
        assert(entries.deep_view() =~= Seq::<(Seq<char>, u64)>::empty());
    }
    loop
        invariant
            is_prefix(spec_gauge_header(), s@),
            s1 == s@.skip(spec_gauge_header().len() as int),
            match spec_parse_samples(rest@) {
                Some(more) => spec_parse_samples(s1) == Some(
                    (entries.deep_view() + more.0, more.1),
                ),
                None => spec_parse_samples(s1) is None,
            },
        ensures
            !is_prefix("disk_status{disk=\""@, rest@),
            match spec_parse_samples(rest@) {
                Some(more) => spec_parse_samples(s1) == Some(
                    (entries.deep_view() + more.0, more.1),
                ),
                None => spec_parse_samples(s1) is None,
            },
        decreases rest@.len(),
    {
        if !str_starts_with(rest, "disk_status{disk=\"") {
            break;
        }
        let ghost old_rest = rest@;
        let ghost old_pairs = entries.deep_view();
        let r_len = rest.unicode_len();
        let nl = match find_first(rest, '\n') {
            Some(k) => k,
            None => {
                proof {
                    assert(spec_parse_samples(rest@) is None);
                }
                return None;
            },
        };
        let line = rest.substring_char(0, nl);
        proof {
            assert(line@ =~= rest@.take(nl as int));
        }
        match parse_sample_line(line) {
            Some(entry) => {
                entries.push(entry);
            },
            None => {
                proof {
                    assert(spec_parse_samples(old_rest) is None);
                }
                return None;
            },
        }
        rest = rest.substring_char(nl + 1, r_len);
        proof {
            assert(rest@ =~= old_rest.skip(nl + 1));
            assert(entries.deep_view() =~= old_pairs.push(
                (entries[entries.len() - 1].0@, entries[entries.len() - 1].1),
            ));
            match spec_parse_samples(rest@) {
                Some(more) => {
                    assert(spec_parse_samples(old_rest) == Some(
                        (seq![(entries[entries.len() - 1].0@, entries[entries.len() - 1].1)]
                            + more.0, more.1),
                    ));
                    assert(old_pairs + (seq![
                        (entries[entries.len() - 1].0@, entries[entries.len() - 1].1),
                    ] + more.0) =~= entries.deep_view() + more.0);
                },
                None => {
                    assert(spec_parse_samples(old_rest) is None);
                },
            }
        }
    }
    proof {
        assert(spec_parse_samples(rest@) == Some((Seq::<(Seq<char>, u64)>::empty(), rest@)));
        assert(entries.deep_view() + Seq::<(Seq<char>, u64)>::empty() =~= entries.deep_view());
        assert(spec_parse_samples(s1) == Some((entries.deep_view(), rest@)));
    }
    let cp =
        "# HELP notify_events Number of events for watched directories\n# TYPE notify_events counter\nnotify_events ";
    if !str_starts_with(rest, cp) {
        return None;
    }
    let cp_len = cp.unicode_len();
    let r_len = rest.unicode_len();
    let ds0 = rest.substring_char(cp_len, r_len);
    proof {
        assert(ds0@ =~= rest@.skip(cp@.len() as int));
    }
    let nl = match find_first(ds0, '\n') {
        Some(k) => k,
        None => {
            return None;
        },
    };
    let ds0_len = r_len - cp_len;
    if nl + 1 != ds0_len {
        proof {
            assert(ds0@.skip(nl as int + 1).len() != 0);
        }
        return None;
    }
    let ds = ds0.substring_char(0, nl);
    proof {
        assert(ds@ =~= ds0@.take(nl as int));
        assert(ds0@.skip(nl as int + 1).len() == 0);
    }
    match crate::text::parse_u64_digits(ds) {
        Some(counter) => Some((entries, counter)),
        None => None,
    }
}

/// Serializes the gauge family alone.
pub fn render_gauges(family: &GaugeFamily) -> (r: String)
    ensures
        r@ == spec_gauge_block(family@),
{
    let mut out = String::from_str(
        "# HELP disk_status Status of the disk (1=active, 0=standby)\n# TYPE disk_status gauge\n",
    );
    let len = family.len();
    let mut idx: usize = 0;
    proof {
        assert(family@.take(0) =~= Seq::<(Seq<char>, u64)>::empty());
        assert(out@ =~= spec_gauge_header() + spec_gauge_lines(family@.take(0)));
    }
    while idx < len
        invariant
            idx <= len,
            len == family@.len(),
            out@ == spec_gauge_header() + spec_gauge_lines(family@.take(idx as int)),
        decreases len - idx,
    {
        let (name, value) = family.entry_at(idx);
        out.append("disk_status{disk=\"");
        out.append(name.as_str());
        out.append("\"} ");
        let num = u64_to_dec(value);
        out.append(num.as_str());
        out.append("\n");
        proof {
            let taken = family@.take(idx + 1);
            assert(taken.drop_last() =~= family@.take(idx as int));
            assert(taken.last() == family@[idx as int]);
            assert(out@ =~= spec_gauge_header() + spec_gauge_lines(taken));
        }
        idx = idx + 1;
    }
    proof {
        assert(family@.take(len as int) =~= family@);
    }
    out
}

/// The position of the first occurrence of `c` in `s`, or -1 when
/// `c` does not occur.
pub open spec fn first_index(s: Seq<char>, c: char) -> int
    decreases s.len(),
{
    if s.len() == 0 {
        -1
    } else if s[0] == c {
        0
    } else if first_index(s.skip(1), c) == -1 {
        -1
    } else {
        1 + first_index(s.skip(1), c)
    }
}

/// `first_index` finds exactly the first occurrence.
pub proof fn lemma_first_index_found(s: Seq<char>, c: char, k: int)
    requires
        0 <= k < s.len(),
        s[k] == c,
        forall|j: int| 0 <= j < k ==> s[j] != c,
    ensures
        first_index(s, c) == k,
    decreases k,
{
    if k > 0 {
        lemma_first_index_found(s.skip(1), c, k - 1);
        assert(forall|j: int| 0 <= j < s.skip(1).len() ==> #[trigger] s.skip(1)[j] == s[j + 1]);
    }
}

/// `first_index` of a sequence without the character is -1, and
/// where it is not -1 it points at the first occurrence.
pub proof fn lemma_first_index_bounds(s: Seq<char>, c: char)
    ensures
        first_index(s, c) == -1 ==> forall|j: int| 0 <= j < s.len() ==> s[j] != c,
        first_index(s, c) != -1 ==> 0 <= first_index(s, c) < s.len() && s[first_index(s, c)]
            == c && forall|j: int| 0 <= j < first_index(s, c) ==> s[j] != c,
    decreases s.len(),
{
    if s.len() > 0 && s[0] != c {
        lemma_first_index_bounds(s.skip(1), c);
        if first_index(s.skip(1), c) == -1 {
            assert(first_index(s, c) == -1);
            assert forall|j: int| 0 <= j < s.len() implies s[j] != c by {
                if j > 0 {
                    assert(s.skip(1)[j - 1] == s[j]);
                }
            }
        } else {
            let k = first_index(s.skip(1), c);
            assert(first_index(s, c) == 1 + k);
            assert(s.skip(1)[k] == s[k + 1]);
            assert forall|j: int| 0 <= j < first_index(s, c) implies s[j] != c by {
                if j > 0 {
                    assert(s.skip(1)[j - 1] == s[j]);
                }
            }
        }
    }
}

/// Finds the first occurrence of a character in a string.
pub fn find_first(s: &str, c: char) -> (r: Option<usize>)
    ensures
        match r {
            Some(k) => first_index(s@, c) == k && 0 <= k < s@.len(),
            None => first_index(s@, c) == -1,
        },
{
    let len = s.unicode_len();
    let mut i: usize = 0;
    while i < len
        invariant
            i <= len,
            len == s@.len(),
            forall|j: int| 0 <= j < i ==> s@[j] != c,
        decreases len - i,
    {
        if s.get_char(i) == c {
            proof {
                lemma_first_index_found(s@, c, i as int);
            }
            return Some(i);
        }
        i = i + 1;
    }
    proof {
        lemma_first_index_bounds(s@, c);
    }
    None
}

/// One sample line of the gauge family, read back: the device
/// identifier between the quotes and the value after them. The line
/// is taken without its terminating line feed.
pub open spec fn spec_parse_sample_line(line: Seq<char>) -> Option<(Seq<char>, u64)> {
    if is_prefix("disk_status{disk=\""@, line) {
        let t = line.skip("disk_status{disk=\""@.len() as int);
        let q = first_index(t, '"');
        if 0 <= q < t.len() {
            let name = t.take(q);
            let u = t.skip(q);
            if is_prefix("\"} "@, u) {
                let ds = u.skip("\"} "@.len() as int);
                if ds.len() > 0 && all_digits(ds) && dec_value(ds) <= u64::MAX {
                    Some((name, dec_value(ds) as u64))
                } else {
                    None
                }
            } else {
                None
            }
        } else {
            None
        }
    } else {
        None
    }
}

/// The gauge sample lines at the front of `s`, read back one line at
/// a time; stops at the first line that is not a sample line and
/// returns it together with the rest of the text.
pub open spec fn spec_parse_samples(s: Seq<char>) -> Option<(Seq<(Seq<char>, u64)>, Seq<char>)>
    decreases s.len(),
{
    if !is_prefix("disk_status{disk=\""@, s) {
        Some((Seq::empty(), s))
    } else {
        let nl = first_index(s, '\n');
        if 0 <= nl < s.len() {
            match spec_parse_sample_line(s.take(nl)) {
                Some(entry) => match spec_parse_samples(s.skip(nl + 1)) {
                    Some(parsed) => Some((seq![entry] + parsed.0, parsed.1)),
                    None => None,
                },
                None => None,
            }
        } else {
            None
        }
    }
}

/// A serialized registry, read back: the gauge entries in sample
/// order and the counter value. `None` when the text is not of the
/// exposition shape this exporter writes.
pub open spec fn spec_parse_exposition(s: Seq<char>) -> Option<(Seq<(Seq<char>, u64)>, u64)> {
    if is_prefix(spec_gauge_header(), s) {
        match spec_parse_samples(s.skip(spec_gauge_header().len() as int)) {
            Some(parsed) => {
                let rest = parsed.1;
                let counter_prefix =
                    "# HELP notify_events Number of events for watched directories\n# TYPE notify_events counter\nnotify_events "@;
                if is_prefix(counter_prefix, rest) {
                    let ds0 = rest.skip(counter_prefix.len() as int);
                    let nl = first_index(ds0, '\n');
                    if 0 <= nl < ds0.len() {
                        let ds = ds0.take(nl);
                        if ds.len() > 0 && all_digits(ds) && dec_value(ds) <= u64::MAX && ds0.skip(
                            nl + 1,
                        ).len() == 0 {
                            Some((parsed.0, dec_value(ds) as u64))
                        } else {
                            None
                        }
                    } else {
                        None
                    }
                } else {
                    None
                }
            },
            None => None,
        }
    } else {
        None
    }
}

/// Serializes the whole registry: the gauge family, then the counter.
pub fn render_registry(family: &GaugeFamily, counter: u64) -> (r: String)
    ensures
        r@ == spec_exposition(family@, counter),
{
    let mut out = render_gauges(family);
    out.append(
        "# HELP notify_events Number of events for watched directories\n# TYPE notify_events counter\nnotify_events ",
    );
    let num = u64_to_dec(counter);
    out.append(num.as_str());
    out.append("\n");
    proof {
        assert(out@ =~= spec_exposition(family@, counter));
    }
    out
}

} // verus!
