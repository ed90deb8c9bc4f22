//! Articles: the stored entity, its derived properties, and the helpers
//! that turn a submission request into an article.

use vstd::pervasive::VecAdditionalExecFns;
use vstd::prelude::*;

use chrono::{Datelike, Timelike};

use crate::text::{
    dec_int, dec_nat, first_at, i64_to_dec, lemma_first_at_is, pad_u64, parse_i64, tokenize,
    tokens_of, zero_pad,
};

verus! {

/// A UTC timestamp broken into plain fields, fixed once at article
/// creation.
#[derive(Clone, Copy, Debug)]
pub struct Stamp {
    pub epoch: i64,
    pub year: i32,
    pub month: u32,
    pub day: u32,
    pub hour: u32,
    pub minute: u32,
    pub second: u32,
    pub nanos: u32,
}

/// The field ranges a wall-clock reading satisfies.
pub open spec fn stamp_wf(s: Stamp) -> bool {
    &&& 1 <= s.month <= 12
    &&& 1 <= s.day <= 31
    &&& s.hour < 24
    &&& s.minute < 60
    &&& s.second < 60
    &&& s.nanos < 2_000_000_000
}

/// Relies on chrono: `Utc::now` and the `Datelike`/`Timelike` accessors.
/// The ranges are the documented ones (month 1..=12, day 1..=31,
/// hour < 24, minute < 60, second < 60; nanoseconds below two billion,
/// values of a billion and above marking a leap second). `Utc::now`
/// panics when the system clock reads before the Unix epoch; no input of
/// this function could exclude that.
#[verifier::external_body]
pub(crate) fn now_stamp() -> (s: Stamp)
    ensures
        stamp_wf(s),
{
    let now = chrono::Utc::now();
    Stamp {
        epoch: now.timestamp(),
        year: now.year(),
        month: now.month(),
        day: now.day(),
        hour: now.hour(),
        minute: now.minute(),
        second: now.second(),
        nanos: now.timestamp_subsec_nanos(),
    }
}

/// Relies on rusty_ulid's `generate_ulid_string`: a fresh ULID in
/// Crockford base32, documented to be exactly 26 characters. It panics
/// when the system clock reads before the Unix epoch or after the year
/// 10889; no input of this function could exclude that.
#[verifier::external_body]
pub(crate) fn fresh_key() -> (r: String)
    ensures
        r@.len() == 26,
{
    rusty_ulid::generate_ulid_string()
}

/// A character that survives slug scrubbing: ASCII letters and digits.
pub open spec fn is_slug_char(c: char) -> bool {
    ||| 'a' as u32 <= c as u32 <= 'z' as u32
    ||| 'A' as u32 <= c as u32 <= 'Z' as u32
    ||| '0' as u32 <= c as u32 <= '9' as u32
}

/// The slug of `s`: each maximal run of non-alphanumeric characters
/// becomes one underscore. `in_run` records whether the previous
/// character was part of such a run.
pub open spec fn slug_from(s: Seq<char>, in_run: bool) -> Seq<char>
    decreases s.len(),
{
    if s.len() == 0 {
        Seq::empty()
    } else if is_slug_char(s[0]) {
        seq![s[0]] + slug_from(s.drop_first(), false)
    } else if in_run {
        slug_from(s.drop_first(), true)
    } else {
        seq!['_'] + slug_from(s.drop_first(), true)
    }
}

/// The slug of a title.
pub open spec fn slug_of(s: Seq<char>) -> Seq<char> {
    slug_from(s, false)
}

/// Scrubs a title into a slug: every maximal run of characters outside
/// `A-Za-z0-9` becomes one underscore.
#[verifier::loop_isolation(false)]
pub fn slug_from_title(title: &str) -> (r: String)
    ensures
        r@ == slug_of(title@),
{
    let n = title.unicode_len();
    let mut out = String::new();
    let mut in_run = false;
    let mut i: usize = 0;
    proof {
        assert(title@.skip(0) =~= title@);
        assert(out@ + slug_from(title@, false) =~= slug_of(title@));
    }
    while i < n
        invariant
            i <= n,
            n == title@.len(),
            out@ + slug_from(title@.skip(i as int), in_run) == slug_of(title@),
        decreases n - i,
    {
        let c = title.get_char(i);
        let u = c as u32;
        let keep = (97 <= u && u <= 122) || (65 <= u && u <= 90) || (48 <= u && u <= 57);
        proof {
            assert(title@.skip(i as int)[0] == c);
            assert(title@.skip(i as int).drop_first() =~= title@.skip(i as int + 1));
            assert(keep == is_slug_char(c));
        }
        if keep {
            out.append(title.substring_char(i, i + 1));
            in_run = false;
            proof {
                assert(title@.subrange(i as int, i as int + 1) =~= seq![c]);
            }
        } else if !in_run {
            out.append("_");
            in_run = true;
            proof {
                reveal_strlit("_");
                assert("_"@ =~= seq!['_']);
            }
        }
        i = i + 1;
    }
    proof {
        assert(title@.skip(n as int).len() == 0);
    }
    out
}

/// The property set of an article: string keys, unique, to string values.
pub type PropertySet = Vec<(String, String)>;

/// The map denoted by a property list (later entries win).
pub open spec fn entries_map(s: Seq<(String, String)>) -> Map<Seq<char>, Seq<char>>
    decreases s.len(),
{
    if s.len() == 0 {
        Map::empty()
    } else {
        entries_map(s.drop_last()).insert(s.last().0@, s.last().1@)
    }
}

/// No two entries share a key.
pub open spec fn keys_unique(s: Seq<(String, String)>) -> bool {
    forall|i: int, j: int| 0 <= i < j < s.len() ==> (#[trigger] s[i].0@) != (#[trigger] s[j].0@)
}

/// A key is in the map exactly when some entry has it.
pub proof fn lemma_entries_contains(s: Seq<(String, String)>, k: Seq<char>)
    ensures
        entries_map(s).contains_key(k) <==> exists|i: int| 0 <= i < s.len() && (#[trigger] s[i].0@)
            == k,
    decreases s.len(),
{
    if s.len() > 0 {
        lemma_entries_contains(s.drop_last(), k);
        if entries_map(s).contains_key(k) {
            if s.last().0@ == k {
                assert(s[s.len() - 1].0@ == k);
            } else {
                let i = choose|i: int| 0 <= i < s.len() - 1 && (#[trigger] s.drop_last()[i].0@)
                    == k;
                assert(s[i].0@ == k);
            }
        }
        if exists|i: int| 0 <= i < s.len() && (#[trigger] s[i].0@) == k {
            let i = choose|i: int| 0 <= i < s.len() && (#[trigger] s[i].0@) == k;
            if i < s.len() - 1 {
                assert(s.drop_last()[i].0@ == k);
            }
        }
    }
}

/// With unique keys, the map reads back each entry's value.
pub proof fn lemma_entries_at(s: Seq<(String, String)>, i: int)
    requires
        keys_unique(s),
        0 <= i < s.len(),
    ensures
        entries_map(s).contains_key(s[i].0@),
        entries_map(s)[s[i].0@] == s[i].1@,
    decreases s.len(),
{
    if i == s.len() - 1 {
    } else {
        assert(s.drop_last()[i] == s[i]);
        assert(keys_unique(s.drop_last())) by {
            assert forall|p: int, q: int|
                0 <= p < q < s.drop_last().len() implies (#[trigger] s.drop_last()[p].0@)
                != (#[trigger] s.drop_last()[q].0@) by {
                assert(s.drop_last()[p] == s[p] && s.drop_last()[q] == s[q]);
            }
        }
        lemma_entries_at(s.drop_last(), i);
        assert(s[i].0@ != s.last().0@) by {
            assert(s[i].0@ == s[i].0@ && s[s.len() - 1].0@ == s.last().0@);
        }
    }
}

/// Replaces the value of `name` if present, appends otherwise; the map
/// gains exactly that binding.
#[verifier::loop_isolation(false)]
pub fn set_property(props: &mut PropertySet, name: String, value: String)
    requires
        keys_unique(old(props)@),
    ensures
        keys_unique(final(props)@),
        entries_map(final(props)@) == entries_map(old(props)@).insert(name@, value@),
{
    let mut i: usize = 0;
    while i < props.len()
        invariant
            i <= props@.len(),
            props@ == old(props)@,
            forall|j: int| 0 <= j < i ==> (#[trigger] props@[j].0@) != name@,
        decreases props@.len() - i,
    {
        if props[i].0 == name {
            let ghost before = props@;
            props.set(i, (name, value));
            proof {
                lemma_entries_update(before, i as int, props@[i as int]);
                assert forall|p: int, q: int|
                    0 <= p < q < props@.len() implies (#[trigger] props@[p].0@)
                    != (#[trigger] props@[q].0@) by {
                    if p != i {
                        assert(props@[p] == before[p]);
                    }
                    if q != i {
                        assert(props@[q] == before[q]);
                    }
                    assert(before[p].0@ != before[q].0@);
                    if p == i {
                        assert(props@[p].0@ == before[i as int].0@);
                    }
                    if q == i {
                        assert(props@[q].0@ == before[i as int].0@);
                    }
                }
            }
            return ;
        }
        i = i + 1;
    }
    let ghost before = props@;
    props.push((name, value));
    proof {
        assert(props@.drop_last() =~= before);
        assert forall|p: int, q: int|
            0 <= p < q < props@.len() implies (#[trigger] props@[p].0@)
            != (#[trigger] props@[q].0@) by {
            if q < props@.len() - 1 {
                assert(props@[p] == before[p] && props@[q] == before[q]);
            } else {
                assert(props@[p] == before[p]);
                assert(props@[q].0@ == name@);
            }
        }
    }
}

/// Updating the entry at `i` to a pair with the same key rebinds that key.
proof fn lemma_entries_update(s: Seq<(String, String)>, i: int, e: (String, String))
    requires
        keys_unique(s),
        0 <= i < s.len(),
        e.0@ == s[i].0@,
    ensures
        entries_map(s.update(i, e)) == entries_map(s).insert(e.0@, e.1@),
    decreases s.len(),
{
    let s2 = s.update(i, e);
    if i == s.len() - 1 {
        assert(s2.drop_last() =~= s.drop_last());
        assert(s2.last() == e);
        assert(entries_map(s2) == entries_map(s.drop_last()).insert(e.0@, e.1@));
        assert(entries_map(s) == entries_map(s.drop_last()).insert(s.last().0@, s.last().1@));
        assert(entries_map(s).insert(e.0@, e.1@) =~= entries_map(s.drop_last()).insert(
            e.0@,
            e.1@,
        ));
    } else {
        assert(keys_unique(s.drop_last())) by {
            assert forall|p: int, q: int|
                0 <= p < q < s.drop_last().len() implies (#[trigger] s.drop_last()[p].0@)
                != (#[trigger] s.drop_last()[q].0@) by {
                assert(s.drop_last()[p] == s[p] && s.drop_last()[q] == s[q]);
            }
        }
        assert(s.drop_last()[i] == s[i]);
        lemma_entries_update(s.drop_last(), i, e);
        assert(s2.drop_last() =~= s.drop_last().update(i, e));
        assert(s2.last() == s.last());
        assert(entries_map(s2) == entries_map(s.drop_last()).insert(e.0@, e.1@).insert(
            s.last().0@,
            s.last().1@,
        ));
        assert(e.0@ != s.last().0@) by {
            assert(s[i].0@ != s[s.len() - 1].0@);
        }
        assert(entries_map(s.drop_last()).insert(e.0@, e.1@).insert(s.last().0@, s.last().1@)
            =~= entries_map(s.drop_last()).insert(s.last().0@, s.last().1@).insert(
            e.0@,
            e.1@,
        ));
    }
}

/// Looks a property up by name.
#[verifier::loop_isolation(false)]
pub fn get_property(props: &PropertySet, name: &String) -> (r: Option<String>)
    requires
        keys_unique(props@),
    ensures
        match r {
            Some(v) => entries_map(props@).contains_key(name@) && entries_map(props@)[name@]
                == v@,
            None => !entries_map(props@).contains_key(name@),
        },
{
    let mut i: usize = 0;
    while i < props.len()
        invariant
            i <= props@.len(),
            forall|j: int| 0 <= j < i ==> (#[trigger] props@[j].0@) != name@,
        decreases props@.len() - i,
    {
        if props[i].0 == *name {
            proof {
                lemma_entries_at(props@, i as int);
            }
            return Some(props[i].1.clone());
        }
        i = i + 1;
    }
    proof {
        lemma_entries_contains(props@, name@);
    }
    None
}

/// The year, zero-padded to four digits; years outside 0..=9999 carry
/// an explicit sign, as the original's formatter writes them.
pub open spec fn year_seq(y: int) -> Seq<char> {
    if 0 <= y <= 9999 {
        zero_pad(dec_nat(y as nat), 4)
    } else if y > 9999 {
        seq!['+'] + dec_nat(y as nat)
    } else {
        seq!['-'] + zero_pad(dec_nat((-y) as nat), 4)
    }
}

/// The second as displayed: a leap second (nanoseconds of a billion and
/// above) shows as the next second number, up to 60.
pub open spec fn display_sec(st: Stamp) -> nat {
    if st.nanos >= 1_000_000_000 {
        (st.second + 1) as nat
    } else {
        st.second as nat
    }
}

/// The sub-second part as displayed, with any leap-second excess removed.
pub open spec fn display_nanos(st: Stamp) -> nat {
    if st.nanos >= 1_000_000_000 {
        (st.nanos - 1_000_000_000) as nat
    } else {
        st.nanos as nat
    }
}

/// The displayed fraction of a second: omitted when zero, otherwise a
/// dot and the shortest of 3, 6 or 9 digits that loses nothing.
pub open spec fn frac_seq(n: nat) -> Seq<char> {
    if n == 0 {
        Seq::empty()
    } else if n % 1_000_000 == 0 {
        seq!['.'] + zero_pad(dec_nat(n / 1_000_000), 3)
    } else if n % 1_000 == 0 {
        seq!['.'] + zero_pad(dec_nat(n / 1_000), 6)
    } else {
        seq!['.'] + zero_pad(dec_nat(n), 9)
    }
}

/// The derived `timestamp` property: `YYYY-MM-DD HH:MM:SS UTC` with the
/// fraction omitted when zero and otherwise trimmed to 3, 6 or 9 digits,
/// and a leap second shown as second 60.
pub open spec fn stamp_display(st: Stamp) -> Seq<char> {
    year_seq(st.year as int) + seq!['-'] + zero_pad(dec_nat(st.month as nat), 2) + seq!['-']
        + zero_pad(dec_nat(st.day as nat), 2) + seq![' '] + zero_pad(dec_nat(st.hour as nat), 2)
        + seq![':'] + zero_pad(dec_nat(st.minute as nat), 2) + seq![':'] + zero_pad(
        dec_nat(display_sec(st)),
        2,
    ) + frac_seq(display_nanos(st)) + seq![' ', 'U', 'T', 'C']
}

/// The chronological bucket name of a timestamp:
/// `YYYYMMDDHHMMSS.nnnnnnnnn`. The second carries the leap excess (a
/// leap second is second 60 with the nanoseconds reduced below a
/// billion), so every field stays fixed-width and bucket names sort
/// chronologically.
pub open spec fn stamp_filename(st: Stamp) -> Seq<char> {
    year_seq(st.year as int) + zero_pad(dec_nat(st.month as nat), 2) + zero_pad(
        dec_nat(st.day as nat),
        2,
    ) + zero_pad(dec_nat(st.hour as nat), 2) + zero_pad(dec_nat(st.minute as nat), 2) + zero_pad(
        dec_nat(display_sec(st)),
        2,
    ) + seq!['.'] + zero_pad(dec_nat(display_nanos(st)), 9)
}

/// A bucket name is never empty: the year part alone is at least four
/// characters.
pub proof fn lemma_stamp_filename_nonempty(st: Stamp)
    ensures
        stamp_filename(st).len() > 0,
{
    crate::text::lemma_dec_nat(if st.year >= 0 {
        st.year as nat
    } else {
        (-(st.year as int)) as nat
    });
}

/// Formats the year as `year_seq` describes.
pub fn year_string(y: i32) -> (r: String)
    ensures
        r@ == year_seq(y as int),
{
    if y >= 0 && y <= 9999 {
        pad_u64(y as u64, 4)
    } else if y > 9999 {
        let mut s = String::from_str("+");
        s.append(crate::text::u64_to_dec(y as u64).as_str());
        proof {
            reveal_strlit("+");
            assert("+"@ =~= seq!['+']);
            assert(s@ =~= year_seq(y as int));
        }
        s
    } else {
        let mag: u64 = (-(y as i64)) as u64;
        let mut s = String::from_str("-");
        s.append(pad_u64(mag, 4).as_str());
        proof {
            reveal_strlit("-");
            assert("-"@ =~= seq!['-']);
            assert(mag == -(y as int));
            assert(s@ =~= year_seq(y as int));
        }
        s
    }
}

/// Formats the `timestamp` property of a reading.
pub fn stamp_display_string(st: &Stamp) -> (r: String)
    requires
        stamp_wf(*st),
    ensures
        r@ == stamp_display(*st),
{
    let (sec2, nano2): (u32, u32) = if st.nanos >= 1_000_000_000 {
        (st.second + 1, st.nanos - 1_000_000_000)
    } else {
        (st.second, st.nanos)
    };
    let mut s = year_string(st.year);
    s.append("-");
    s.append(pad_u64(st.month as u64, 2).as_str());
    s.append("-");
    s.append(pad_u64(st.day as u64, 2).as_str());
    s.append(" ");
    s.append(pad_u64(st.hour as u64, 2).as_str());
    s.append(":");
    s.append(pad_u64(st.minute as u64, 2).as_str());
    s.append(":");
    s.append(pad_u64(sec2 as u64, 2).as_str());
    if nano2 > 0 {
        s.append(".");
        if nano2 % 1_000_000 == 0 {
            s.append(pad_u64((nano2 / 1_000_000) as u64, 3).as_str());
        } else if nano2 % 1_000 == 0 {
            s.append(pad_u64((nano2 / 1_000) as u64, 6).as_str());
        } else {
            s.append(pad_u64(nano2 as u64, 9).as_str());
        }
    }
    s.append(" UTC");
    proof {
        reveal_strlit("-");
        reveal_strlit(" ");
        reveal_strlit(":");
        reveal_strlit(".");
        reveal_strlit(" UTC");
        assert("-"@ =~= seq!['-']);
        assert(" "@ =~= seq![' ']);
        assert(":"@ =~= seq![':']);
        assert("."@ =~= seq!['.']);
        assert(" UTC"@ =~= seq![' ', 'U', 'T', 'C']);
        assert(s@ =~= stamp_display(*st));
    }
    s
}

/// Derives the chronological bucket string of a creation timestamp (the
/// name the raw body's directory chain spells).
pub fn datetime_to_filename(st: &Stamp) -> (r: String)
    ensures
        r@ == stamp_filename(*st),
{
    let (sec2, nano2): (u64, u64) = if st.nanos >= 1_000_000_000 {
        (st.second as u64 + 1, (st.nanos - 1_000_000_000) as u64)
    } else {
        (st.second as u64, st.nanos as u64)
    };
    let mut s = year_string(st.year);
    s.append(pad_u64(st.month as u64, 2).as_str());
    s.append(pad_u64(st.day as u64, 2).as_str());
    s.append(pad_u64(st.hour as u64, 2).as_str());
    s.append(pad_u64(st.minute as u64, 2).as_str());
    s.append(pad_u64(sec2, 2).as_str());
    s.append(".");
    s.append(pad_u64(nano2, 9).as_str());
    proof {
        reveal_strlit(".");
        assert("."@ =~= seq!['.']);
        assert(s@ =~= stamp_filename(*st));
    }
    s
}

/// A submitted article, before any derived field exists.
#[derive(Debug)]
pub struct NewArticleRequest {
    pub id: String,
    pub title: String,
    pub body: String,
    pub properties: String,
    pub tags: String,
}

impl Default for NewArticleRequest {
    /// The empty request.
    fn default() -> (r: Self)
        ensures
            r.id@.len() == 0,
            r.title@.len() == 0,
            r.body@.len() == 0,
            r.properties@.len() == 0,
            r.tags@.len() == 0,
    {
        NewArticleRequest {
            id: String::new(),
            title: String::new(),
            body: String::new(),
            properties: String::new(),
            tags: String::new(),
        }
    }
}

/// A stored article. `key` is the globally unique, time-sortable
/// identifier assigned at creation; `id` is the user-chosen slug.
#[derive(Debug)]
pub struct Article {
    pub key: String,
    pub id: String,
    pub title: String,
    pub body: String,
    pub properties: PropertySet,
    pub tags: Vec<String>,
    pub created: Stamp,
}

/// Field-by-field view equality of two articles.
pub open spec fn same_article(a: &Article, b: &Article) -> bool {
    &&& a.key@ == b.key@
    &&& a.id@ == b.id@
    &&& a.title@ == b.title@
    &&& a.body@ == b.body@
    &&& a.properties@.map_values(|p: (String, String)| (p.0@, p.1@)) == b.properties@.map_values(
        |p: (String, String)| (p.0@, p.1@),
    )
    &&& a.tags@.map_values(|t: String| t@) == b.tags@.map_values(|t: String| t@)
    &&& a.created == b.created
}

/// `m` is the stored metadata of `a`: every field of `a`, except that the
/// stored body is empty (the raw body lives in the chronological store).
pub open spec fn is_meta_of_spec(m: Article, a: Article) -> bool {
    &&& m.key@ == a.key@
    &&& m.id@ == a.id@
    &&& m.title@ == a.title@
    &&& m.body@ == Seq::<char>::empty()
    &&& m.properties@.map_values(|p: (String, String)| (p.0@, p.1@)) == a.properties@.map_values(
        |p: (String, String)| (p.0@, p.1@),
    )
    &&& m.tags@.map_values(|t: String| t@) == a.tags@.map_values(|t: String| t@)
    &&& m.created == a.created
}

impl Clone for Article {
    /// A deep copy with the same view of every field.
    fn clone(&self) -> (r: Self)
        ensures
            same_article(&r, self),
    {
        let mut properties: PropertySet = Vec::new();
        let mut i: usize = 0;
        while i < self.properties.len()
            invariant
                i <= self.properties@.len(),
                properties@.len() == i,
                forall|j: int|
                    0 <= j < i ==> (#[trigger] properties@[j]).0@ == self.properties@[j].0@
                        && properties@[j].1@ == self.properties@[j].1@,
            decreases self.properties@.len() - i,
        {
            properties.push((self.properties[i].0.clone(), self.properties[i].1.clone()));
            i = i + 1;
        }
        let mut tags: Vec<String> = Vec::new();
        let mut k: usize = 0;
        while k < self.tags.len()
            invariant
                k <= self.tags@.len(),
                tags@.len() == k,
                forall|j: int| 0 <= j < k ==> (#[trigger] tags@[j])@ == self.tags@[j]@,
            decreases self.tags@.len() - k,
        {
            tags.push(self.tags[k].clone());
            k = k + 1;
        }
        let r = Article {
            key: self.key.clone(),
            id: self.id.clone(),
            title: self.title.clone(),
            body: self.body.clone(),
            properties,
            tags,
            created: self.created,
        };
        proof {
            assert(r.properties@.map_values(|p: (String, String)| (p.0@, p.1@))
                =~= self.properties@.map_values(|p: (String, String)| (p.0@, p.1@)));
            assert(r.tags@.map_values(|t: String| t@) =~= self.tags@.map_values(
                |t: String| t@,
            ));
        }
        r
    }
}

/// The property map denoted by a whitespace-separated list of
/// `name:value` tokens; a later binding of a name wins.
pub open spec fn user_props(toks: Seq<Seq<char>>) -> Map<Seq<char>, Seq<char>>
    decreases toks.len(),
{
    if toks.len() == 0 {
        Map::empty()
    } else {
        let t = toks.last();
        let p = first_at(t, ':');
        user_props(toks.drop_last()).insert(t.take(p), t.skip(p + 1))
    }
}

/// The user's properties with the five derived fields bound last.
pub open spec fn with_defaults(m: Map<Seq<char>, Seq<char>>, st: Stamp) -> Map<
    Seq<char>,
    Seq<char>,
> {
    m.insert("timestamp"@, stamp_display(st)).insert("epoch"@, dec_int(st.epoch as int)).insert(
        "year"@,
        year_seq(st.year as int),
    ).insert("month"@, zero_pad(dec_nat(st.month as nat), 2)).insert(
        "day"@,
        zero_pad(dec_nat(st.day as nat), 2),
    )
}

impl Article {
    /// Binds the five derived fields of the creation timestamp,
    /// overwriting any user-supplied value of the same name.
    fn add_default_properties(properties: &mut PropertySet, st: &Stamp)
        requires
            keys_unique(old(properties)@),
            stamp_wf(*st),
        ensures
            keys_unique(final(properties)@),
            entries_map(final(properties)@) == with_defaults(entries_map(old(properties)@), *st),
    {
        set_property(properties, String::from_str("timestamp"), stamp_display_string(st));
        set_property(properties, String::from_str("epoch"), i64_to_dec(st.epoch));
        set_property(properties, String::from_str("year"), year_string(st.year));
        set_property(properties, String::from_str("month"), pad_u64(st.month as u64, 2));
        set_property(properties, String::from_str("day"), pad_u64(st.day as u64, 2));
    }

    /// Builds an article from a request: a fresh key, the creation
    /// timestamp, the parsed `name:value` properties with the derived
    /// fields bound on top, and the tag words with duplicates collapsed.
    /// Every property token must contain a colon.
    #[verifier::loop_isolation(false)]
    pub fn new(request: &NewArticleRequest) -> (a: Article)
        requires
            forall|i: int|
                0 <= i < tokens_of(request.properties@).len() ==> first_at(
                    #[trigger] tokens_of(request.properties@)[i],
                    ':',
                ) < tokens_of(request.properties@)[i].len(),
        ensures
            a.id@ == request.id@,
            a.title@ == request.title@,
            a.body@ == request.body@,
            a.key@.len() == 26,
            stamp_wf(a.created),
            keys_unique(a.properties@),
            entries_map(a.properties@) == with_defaults(
                user_props(tokens_of(request.properties@)),
                a.created,
            ),
            forall|x: Seq<char>|
                #![trigger tokens_of(request.tags@).contains(x)]
                (exists|i: int| 0 <= i < a.tags@.len() && (#[trigger] a.tags@[i])@ == x)
                    <==> tokens_of(request.tags@).contains(x),
            forall|i: int, j: int|
                0 <= i < j < a.tags@.len() ==> (#[trigger] a.tags@[i])@ != (#[trigger] a.tags@[j])@,
    {
        let key = fresh_key();
        let created = now_stamp();
        let toks = tokenize(request.properties.as_str());
        let ghost tv = toks@.map_values(|t: String| t@);
        let mut properties: PropertySet = Vec::new();
        let mut i: usize = 0;
        proof {
            assert(tv.take(0) =~= Seq::<Seq<char>>::empty());
        }
        while i < toks.len()
            invariant
                i <= toks@.len(),
                keys_unique(properties@),
                entries_map(properties@) == user_props(tv.take(i as int)),
            decreases toks@.len() - i,
        {
            let t = &toks[i];
            let t_len = t.as_str().unicode_len();
            let ghost t_spec = tv[i as int];
            proof {
                assert(t_spec == toks@[i as int]@);
            }
            let mut j: usize = 0;
            while j < t_len && !(t.as_str().get_char(j) == ':')
                invariant
                    j <= t_len,
                    forall|x: int| 0 <= x < j ==> (#[trigger] t_spec[x]) != ':',
                decreases t_len - j,
            {
                j = j + 1;
            }
            proof {
                lemma_first_at_is(t_spec, ':', j as int);
                assert(first_at(t_spec, ':') < t_spec.len());
            }
            let field = String::from_str(t.as_str().substring_char(0, j));
            let value = String::from_str(t.as_str().substring_char(j + 1, t_len));
            set_property(&mut properties, field, value);
            proof {
                assert(tv.take(i as int + 1).drop_last() =~= tv.take(i as int));
                assert(tv.take(i as int + 1).last() == t_spec);
            }
            i = i + 1;
        }
        proof {
            assert(tv.take(toks@.len() as int) =~= tv);
        }
        Self::add_default_properties(&mut properties, &created);
        let ttoks = tokenize(request.tags.as_str());
        let ghost ttv = ttoks@.map_values(|t: String| t@);
        let mut tags: Vec<String> = Vec::new();
        let mut k: usize = 0;
        while k < ttoks.len()
            invariant
                k <= ttoks@.len(),
                forall|p: int, q: int|
                    0 <= p < q < tags@.len() ==> (#[trigger] tags@[p])@ != (#[trigger] tags@[q])@,
                forall|x: Seq<char>|
                    #![trigger ttv.take(k as int).contains(x)]
                    (exists|p: int| 0 <= p < tags@.len() && (#[trigger] tags@[p])@ == x)
                        <==> ttv.take(k as int).contains(x),
            decreases ttoks@.len() - k,
        {
            let t = &ttoks[k];
            let ghost t_spec = ttv[k as int];
            proof {
                assert(t_spec == ttoks@[k as int]@);
                assert(ttv.take(k as int + 1).drop_last() =~= ttv.take(k as int));
            }
            let mut found = false;
            let mut p: usize = 0;
            while p < tags.len()
                invariant
                    p <= tags@.len(),
                    found == exists|q: int| 0 <= q < p && (#[trigger] tags@[q])@ == t_spec,
                decreases tags@.len() - p,
            {
                if tags[p] == *t {
                    found = true;
                }
                p = p + 1;
            }
            let ghost tags_before = tags@;
            if !found {
                tags.push(t.clone());
            }
            proof {
                let tk0 = ttv.take(k as int);
                let tk1 = ttv.take(k as int + 1);
                if !found {
                    assert(tags@ == tags_before.push(tags@[tags@.len() - 1]));
                    assert(tags@[tags@.len() - 1]@ == t_spec);
                } else {
                    assert(tags@ == tags_before);
                }
                assert forall|x: Seq<char>|
                    #![trigger tk1.contains(x)]
                    (exists|q: int| 0 <= q < tags@.len() && (#[trigger] tags@[q])@ == x)
                        <==> tk1.contains(x) by {
                    if tk1.contains(x) {
                        let w = choose|w: int| 0 <= w < tk1.len() && #[trigger] tk1[w] == x;
                        if w < k {
                            assert(tk0.contains(x)) by {
                                assert(tk0[w] == x);
                            }
                            let q = choose|q: int|
                                0 <= q < tags_before.len() && (#[trigger] tags_before[q])@ == x;
                            assert(tags@[q]@ == x);
                        } else {
                            assert(x == t_spec);
                            if found {
                                let q = choose|q: int|
                                    0 <= q < tags_before.len() && (#[trigger] tags_before[q])@
                                        == t_spec;
                                assert(tags@[q]@ == x);
                            } else {
                                assert(tags@[tags@.len() - 1]@ == x);
                            }
                        }
                    }
                    if exists|q: int| 0 <= q < tags@.len() && (#[trigger] tags@[q])@ == x {
                        let q = choose|q: int|
                            0 <= q < tags@.len() && (#[trigger] tags@[q])@ == x;
                        if x == t_spec {
                            assert(tk1[k as int] == x);
                            assert(tk1.contains(x));
                        } else {
                            assert(q < tags_before.len());
                            assert(tags_before[q]@ == x);
                            assert(tk0.contains(x));
                            let w = choose|w: int| 0 <= w < tk0.len() && #[trigger] tk0[w] == x;
                            assert(tk1[w] == x);
                            assert(tk1.contains(x));
                        }
                    }
                }
                assert(ttv.take(k as int + 1) == tk1);
            }
            k = k + 1;
        }
        let a = Article {
            key,
            id: request.id.clone(),
            title: request.title.clone(),
            body: request.body.clone(),
            properties,
            tags,
            created,
        };
        proof {
            let tkall = ttv.take(ttoks@.len() as int);
            assert(tkall =~= ttv);
            assert(ttv == tokens_of(request.tags@));
            assert forall|x: Seq<char>|
                #![trigger tokens_of(request.tags@).contains(x)]
                (exists|i: int| 0 <= i < a.tags@.len() && (#[trigger] a.tags@[i])@ == x)
                    <==> tokens_of(request.tags@).contains(x) by {
                if tokens_of(request.tags@).contains(x) {
                    assert(tkall.contains(x));
                    let q = choose|q: int|
                        0 <= q < a.tags@.len() && (#[trigger] a.tags@[q])@ == x;
                }
                if exists|i: int| 0 <= i < a.tags@.len() && (#[trigger] a.tags@[i])@ == x {
                    let i = choose|i: int|
                        0 <= i < a.tags@.len() && (#[trigger] a.tags@[i])@ == x;
                    assert(tkall.contains(x));
                    assert(tokens_of(request.tags@).contains(x));
                }
            }
        }
        a
    }

    /// Reads the derived `epoch` property back as a number; it was
    /// written as the decimal of the creation epoch.
    pub fn epoch(&self) -> (r: i64)
        requires
            keys_unique(self.properties@),
            exists|v: int|
                #![auto]
                i64::MIN <= v <= i64::MAX && entries_map(self.properties@).contains_key(
                    "epoch"@,
                ) && entries_map(self.properties@)["epoch"@] == dec_int(v),
        ensures
            entries_map(self.properties@)["epoch"@] == dec_int(r as int),
    {
        let name = String::from_str("epoch");
        let ghost w = choose|v: int|
            #![auto]
            i64::MIN <= v <= i64::MAX && entries_map(self.properties@).contains_key("epoch"@)
                && entries_map(self.properties@)["epoch"@] == dec_int(v);
        match get_property(&self.properties, &name) {
            Some(s) => {
                proof {
                    assert(s@ == dec_int(w));
                }
                match parse_i64(s.as_str()) {
                    Some(x) => x,
                    None => {
                        proof {
                            assert(false);
                        }
                        0
                    },
                }
            },
            None => {
                proof {
                    assert(false);
                }
                0
            },
        }
    }

    /// Reads the derived `timestamp` property back.
    pub fn timestamp(&self) -> (r: String)
        requires
            keys_unique(self.properties@),
            entries_map(self.properties@).contains_key("timestamp"@),
        ensures
            r@ == entries_map(self.properties@)["timestamp"@],
    {
        let name = String::from_str("timestamp");
        match get_property(&self.properties, &name) {
            Some(s) => s,
            None => {
                proof {
                    assert(false);
                }
                String::new()
            },
        }
    }
}

} // verus!
