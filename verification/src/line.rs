//! One physical line of the host table: optional address-with-aliases data,
//! optional trailing comment, or nothing at all (a blank line).

use vstd::prelude::*;
use vstd::string::*;
use crate::addr::{HostAddr, parse_addr, addr_text};
use crate::text::{
    is_space, is_digit, first_index_of, first_space, first_nonspace, trim, trim_start, trim_end,
    split_ws, lemma_first_index_of_props, lemma_first_index_of_is, lemma_first_space_props,
    lemma_first_space_is, lemma_first_nonspace_props, lemma_first_nonspace_is, lemma_trim_end_is,
    lemma_split_ws_props, lemma_split_ws_chars, lemma_split_ws_nonempty,
};

verus! {

/// Why a line's data segment fails to parse.
#[derive(Clone, Copy, Debug, PartialEq, Eq, Structural)]
pub enum FormatError {
    /// The data segment has a single token: an address with no alias.
    MissingHosts,
    /// The leading token of the data segment is not an IP address literal.
    InvalidAddress,
}

/// Mathematical model of a line's data: an address and its alias tokens.
pub ghost struct DataModel {
    pub ip: HostAddr,
    pub hosts: Seq<Seq<char>>,
}

/// Mathematical model of one line.
pub ghost struct LineModel {
    pub data: Option<DataModel>,
    pub comment: Option<Seq<char>>,
}

/// An address with its ordered, non-empty list of aliases.
#[derive(Debug, PartialEq, Eq)]
pub struct LineData {
    pub ip: HostAddr,
    pub hosts: Vec<String>,
}

/// One line of the table: optional data, optional trailing comment.
#[derive(Debug, PartialEq, Eq)]
pub struct Line {
    pub data: Option<LineData>,
    pub comment: Option<String>,
}

impl View for LineData {
    type V = DataModel;

    open spec fn view(&self) -> DataModel {
        DataModel { ip: self.ip, hosts: self.hosts.deep_view() }
    }
}

impl View for Line {
    type V = LineModel;

    open spec fn view(&self) -> LineModel {
        LineModel {
            data: match self.data {
                Some(d) => Some(d@),
                None => None,
            },
            comment: match self.comment {
                Some(c) => Some(c@),
                None => None,
            },
        }
    }
}

impl DeepView for Line {
    type V = LineModel;

    open spec fn deep_view(&self) -> LineModel {
        self.view()
    }
}

/// A line with neither data nor comment is blank.
pub open spec fn line_is_empty(l: LineModel) -> bool {
    l.data is None && l.comment is None
}

/// Parse a trimmed data segment: a leading address token, whitespace, then
/// one or more alias tokens.
pub open spec fn parse_data_spec(t: Seq<char>) -> Result<DataModel, FormatError> {
    let w = first_space(t);
    if w == t.len() {
        Err(FormatError::MissingHosts)
    } else {
        match parse_addr(t.take(w)) {
            Option::None => Err(FormatError::InvalidAddress),
            Option::Some(ip) => Ok(DataModel { ip, hosts: split_ws(t.skip(w)) }),
        }
    }
}

/// Parse one line: everything after the first `#` (left-trimmed once) is the
/// comment; the rest, trimmed, is the data segment, empty meaning no data.
pub open spec fn parse_line_spec(s: Seq<char>) -> Result<LineModel, FormatError> {
    let h = first_index_of(s, '#');
    let comment = if h < s.len() {
        Some(trim_start(s.skip(h + 1)))
    } else {
        None::<Seq<char>>
    };
    let t = trim(s.take(h));
    if t.len() == 0 {
        Ok(LineModel { data: None, comment })
    } else {
        match parse_data_spec(t) {
            Ok(d) => Ok(LineModel { data: Some(d), comment }),
            Err(e) => Err(e),
        }
    }
}

/// Text of the alias tokens: one space before each.
pub open spec fn hosts_text(hs: Seq<Seq<char>>) -> Seq<char>
    decreases hs.len(),
{
    if hs.len() == 0 {
        Seq::empty()
    } else {
        hosts_text(hs.drop_last()) + seq![' '] + hs.last()
    }
}

/// Text of a data segment: the address, then the aliases.
pub open spec fn data_text(d: DataModel) -> Seq<char> {
    addr_text(d.ip) + hosts_text(d.hosts)
}

/// Text of a line: data, then the comment introduced by `# ` (separated
/// from data, when present, by two spaces).
pub open spec fn line_text(l: LineModel) -> Seq<char> {
    let dt = match l.data {
        Some(d) => data_text(d),
        None => Seq::empty(),
    };
    match l.comment {
        Some(c) => dt + (if l.data is Some {
            seq![' ', ' ']
        } else {
            Seq::empty()
        }) + seq!['#', ' '] + c,
        None => dt,
    }
}

/// An alias token as serialization keeps it faithful: non-empty, without
/// whitespace and without `#`.
pub open spec fn token_wf(t: Seq<char>) -> bool {
    t.len() > 0 && forall|i: int| 0 <= i < t.len() ==> !is_space(#[trigger] t[i]) && t[i] != '#'
}

pub open spec fn data_wf(d: DataModel) -> bool {
    d.hosts.len() > 0 && forall|i: int| 0 <= i < d.hosts.len() ==> token_wf(#[trigger] d.hosts[i])
}

/// A comment as parsing produces it: no leading whitespace.
pub open spec fn comment_wf(c: Seq<char>) -> bool {
    c.len() > 0 ==> !is_space(c[0])
}

/// The lines that parsing can produce; serialization is injective on them.
pub open spec fn line_wf(l: LineModel) -> bool {
    &&& (l.data matches Some(d) ==> data_wf(d))
    &&& (l.comment matches Some(c) ==> comment_wf(c))
}

fn is_space_char(c: char) -> (b: bool)
    ensures
        b == is_space(c),
{
    c == ' ' || c == '\t' || c == '\n' || c == '\r' || c == '\u{b}' || c == '\u{c}'
}

/// `s` without leading whitespace.
fn trim_start_str(s: &str) -> (r: &str)
    ensures
        r@ == trim_start(s@),
{
    let n = s.unicode_len();
    let mut a: usize = 0;
    while a < n && is_space_char(s.get_char(a))
        invariant
            0 <= a <= n,
            n == s@.len(),
            forall|k: int| 0 <= k < a ==> is_space(s@[k]),
        decreases n - a,
    {
        a += 1;
    }
    proof {
        lemma_first_nonspace_is(s@, a as int);
    }
    s.substring_char(a, n)
}

/// `s` without leading and trailing whitespace.
fn trim_str(s: &str) -> (r: &str)
    ensures
        r@ == trim(s@),
{
    let n = s.unicode_len();
    let mut a: usize = 0;
    while a < n && is_space_char(s.get_char(a))
        invariant
            0 <= a <= n,
            n == s@.len(),
            forall|k: int| 0 <= k < a ==> is_space(s@[k]),
        decreases n - a,
    {
        a += 1;
    }
    proof {
        lemma_first_nonspace_is(s@, a as int);
    }
    let mut b: usize = n;
    while b > a && is_space_char(s.get_char(b - 1))
        invariant
            a <= b <= n,
            n == s@.len(),
            forall|k: int| b <= k < n ==> is_space(s@[k]),
        decreases b,
    {
        b -= 1;
    }
    proof {
        let st = s@.skip(a as int);
        assert(trim_start(s@) == st);
        assert forall|k: int| b - a <= k < st.len() implies is_space(st[k]) by {
            assert(st[k] == s@[a + k]);
        }
        if b > a {
            assert(st[b - a - 1] == s@[b as int - 1]);
        }
        lemma_trim_end_is(st, b - a);
        assert(st.take(b - a) =~= s@.subrange(a as int, b as int));
    }
    s.substring_char(a, b)
}

/// The whitespace-separated tokens of `s`.
fn split_ws_str(s: &str) -> (parts: Vec<String>)
    ensures
        parts.deep_view() == split_ws(s@),
{
    let n = s.unicode_len();
    let mut parts: Vec<String> = Vec::new();
    let mut i: usize = 0;
    proof {
        assert(s@.skip(0) =~= s@);
        assert(parts.deep_view() =~~= Seq::<Seq<char>>::empty());
        assert(Seq::<Seq<char>>::empty() + split_ws(s@) =~~= split_ws(s@));
    }
    while i < n
        invariant
            0 <= i <= n,
            n == s@.len(),
            split_ws(s@) == parts.deep_view() + split_ws(s@.skip(i as int)),
        decreases n - i,
    {
        if is_space_char(s.get_char(i)) {
            proof {
                assert(s@.skip(i as int).drop_first() =~= s@.skip(i as int + 1));
            }
            i += 1;
        } else {
            let mut j: usize = i + 1;
            while j < n && !is_space_char(s.get_char(j))
                invariant
                    i < j <= n,
                    n == s@.len(),
                    forall|k: int| i < k < j ==> !is_space(s@[k]),
                decreases n - j,
            {
                j += 1;
            }
            let tok = s.substring_char(i, j).to_owned();
            let ghost prev = parts.deep_view();
            proof {
                let rest = s@.skip(i as int);
                assert forall|k: int| 0 <= k < j - i implies !is_space(rest[k]) by {
                    assert(rest[k] == s@[i + k]);
                }
                if j < n {
                    assert(rest[j - i] == s@[j as int]);
                }
                lemma_first_space_is(rest, j - i);
                assert(rest.take(j - i) =~= s@.subrange(i as int, j as int));
                assert(rest.skip(j - i) =~= s@.skip(j as int));
                assert(split_ws(rest) == seq![s@.subrange(i as int, j as int)] + split_ws(
                    s@.skip(j as int),
                ));
            }
            parts.push(tok);
            proof {
                assert(parts.deep_view() =~~= prev.push(tok@));
                assert(prev + (seq![tok@] + split_ws(s@.skip(j as int))) =~~= parts.deep_view()
                    + split_ws(s@.skip(j as int)));
            }
            i = j;
        }
    }
    proof {
        assert(s@.skip(n as int) =~= Seq::<char>::empty());
        assert(split_ws(Seq::<char>::empty()) =~~= Seq::<Seq<char>>::empty());
        assert(parts.deep_view() + Seq::<Seq<char>>::empty() =~~= parts.deep_view());
    }
    parts
}

impl LineData {
    /// Parse a data segment (trimming it first): an address token, then one
    /// or more alias tokens.
    pub fn from_str(s: &str) -> (r: Result<LineData, FormatError>)
        ensures
            match r {
                Ok(d) => parse_data_spec(trim(s@)) == Ok::<DataModel, FormatError>(d@),
                Err(e) => parse_data_spec(trim(s@)) == Err::<DataModel, FormatError>(e),
            },
    {
        let t = trim_str(s);
        let n = t.unicode_len();
        let mut w: usize = 0;
        while w < n && !is_space_char(t.get_char(w))
            invariant
                0 <= w <= n,
                n == t@.len(),
                forall|k: int| 0 <= k < w ==> !is_space(t@[k]),
            decreases n - w,
        {
            w += 1;
        }
        proof {
            lemma_first_space_is(t@, w as int);
        }
        if w == n {
            return Err(FormatError::MissingHosts);
        }
        let head = t.substring_char(0, w);
        proof {
            assert(head@ =~= t@.take(w as int));
        }
        let ip = match HostAddr::parse(head) {
            Some(ip) => ip,
            None => {
                return Err(FormatError::InvalidAddress);
            },
        };
        let rest = t.substring_char(w, n);
        proof {
            assert(rest@ =~= t@.skip(w as int));
        }
        let hosts = split_ws_str(rest);
        Ok(LineData { ip, hosts })
    }

    /// Append the text of this data segment to `buf`.
    pub fn write_into(&self, buf: &mut String)
        ensures
            final(buf)@ == old(buf)@ + data_text(self@),
    {
        self.ip.write_into(buf);
        let ghost base = buf@;
        proof {
            assert(self.hosts.deep_view().take(0) =~~= Seq::<Seq<char>>::empty());
            assert(base + hosts_text(self.hosts.deep_view().take(0)) =~= base);
        }
        let mut k: usize = 0;
        while k < self.hosts.len()
            invariant
                0 <= k <= self.hosts@.len(),
                buf@ == base + hosts_text(self.hosts.deep_view().take(k as int)),
            decreases self.hosts@.len() - k,
        {
            proof {
                reveal_strlit(" ");
            }
            buf.append(" ");
            buf.append(self.hosts[k].as_str());
            proof {
                let hs = self.hosts.deep_view();
                assert(hs.take(k as int + 1).drop_last() =~~= hs.take(k as int));
                assert(hs.take(k as int + 1).last() == hs[k as int]);
                assert(hs[k as int] == self.hosts@[k as int]@);
                assert((" "@) =~= seq![' ']);
                assert(buf@ =~= base + hosts_text(hs.take(k as int + 1)));
            }
            k += 1;
        }
        proof {
            assert(self.hosts.deep_view().take(self.hosts@.len() as int) =~~= self
                .hosts
                .deep_view());
        }
    }
}

impl Line {
    /// Parse one line of the table.
    pub fn from_str(s: &str) -> (r: Result<Line, FormatError>)
        ensures
            match r {
                Ok(l) => parse_line_spec(s@) == Ok::<LineModel, FormatError>(l@),
                Err(e) => parse_line_spec(s@) == Err::<LineModel, FormatError>(e),
            },
    {
        let n = s.unicode_len();
        let mut h: usize = 0;
        while h < n && s.get_char(h) != '#'
            invariant
                0 <= h <= n,
                n == s@.len(),
                forall|k: int| 0 <= k < h ==> s@[k] != '#',
            decreases n - h,
        {
            h += 1;
        }
        proof {
            lemma_first_index_of_is(s@, '#', h as int);
        }
        let comment: Option<String> = if h < n {
            Some(trim_start_str(s.substring_char(h + 1, n)).to_owned())
        } else {
            None
        };
        proof {
            if h < n {
                assert(s@.subrange(h as int + 1, n as int) =~= s@.skip(h as int + 1));
            }
        }
        let seg = s.substring_char(0, h);
        proof {
            assert(seg@ =~= s@.take(h as int));
        }
        let t = trim_str(seg);
        if t.unicode_len() == 0 {
            return Ok(Line { data: None, comment });
        }
        match LineData::from_str(t) {
            Ok(d) => {
                proof {
                    assert(trim(t@) == t@) by {
                        assert(trim(trim(seg@)) == trim(seg@)) by {
                            lemma_trim_idempotent(seg@);
                        }
                    }
                }
                Ok(Line { data: Some(d), comment })
            },
            Err(e) => {
                proof {
                    assert(trim(t@) == t@) by {
                        lemma_trim_idempotent(seg@);
                    }
                }
                Err(e)
            },
        }
    }

    /// Whether this line is blank.
    pub fn is_empty(&self) -> (r: bool)
        ensures
            r == line_is_empty(self@),
    {
        self.data.is_none() && self.comment.is_none()
    }

    /// Append the text of this line to `buf`.
    pub fn write_into(&self, buf: &mut String)
        ensures
            final(buf)@ == old(buf)@ + line_text(self@),
    {
        if let Some(data) = &self.data {
            data.write_into(buf);
        }
        if let Some(comment) = &self.comment {
            proof {
                reveal_strlit("  ");
                reveal_strlit("# ");
            }
            if self.data.is_some() {
                buf.append("  ");
            }
            buf.append("# ");
            buf.append(comment.as_str());
            proof {
                assert(("  "@) =~= seq![' ', ' ']);
                assert(("# "@) =~= seq!['#', ' ']);
                assert(buf@ =~= old(buf)@ + line_text(self@));
            }
        }
        proof {
            assert(buf@ =~= old(buf)@ + line_text(self@));
        }
    }
}

/// Trimming is idempotent.
proof fn lemma_trim_idempotent(s: Seq<char>)
    ensures
        trim(trim(s)) == trim(s),
{
    let t = trim(s);
    lemma_trim_props(s);
    if t.len() == 0 {
        lemma_first_nonspace_is(t, 0);
        assert(trim_start(t) =~= t);
        assert(trim_end(trim_start(t)) == t);
    } else {
        lemma_first_nonspace_is(t, 0);
        assert(trim_start(t) =~= t);
        lemma_trim_end_is(t, t.len() as int);
        assert(t.take(t.len() as int) =~= t);
    }
}

/// What trimming guarantees of its result: no whitespace at either end.
pub proof fn lemma_trim_props(s: Seq<char>)
    ensures
        trim(s).len() > 0 ==> !is_space(trim(s)[0]),
        trim(s).len() > 0 ==> !is_space(trim(s).last()),
{
    lemma_first_nonspace_props(s);
    let st = trim_start(s);
    lemma_trim_end_props(st);
    if trim(s).len() > 0 {
        assert(trim(s)[0] == st[0]);
        assert(st[0] == s[first_nonspace(s)]);
    }
}

/// Unfolding the alias text from the front.
proof fn lemma_hosts_text_front(hs: Seq<Seq<char>>)
    requires
        hs.len() > 0,
    ensures
        hosts_text(hs) == seq![' '] + hs[0] + hosts_text(hs.drop_first()),
    decreases hs.len(),
{
    if hs.len() == 1 {
        assert(hs.drop_last() =~~= Seq::<Seq<char>>::empty());
        assert(hs.drop_first() =~~= Seq::<Seq<char>>::empty());
        assert(hosts_text(Seq::<Seq<char>>::empty()) == Seq::<char>::empty());
        assert(hosts_text(hs) == Seq::empty() + seq![' '] + hs[0]);
        assert(Seq::empty() + seq![' '] + hs[0] =~= seq![' '] + hs[0] + Seq::<char>::empty());
    } else {
        lemma_hosts_text_front(hs.drop_last());
        assert(hs.drop_last()[0] == hs[0]);
        assert(hs.drop_last().drop_first() =~~= hs.drop_first().drop_last());
        assert(hs.drop_first().len() > 0);
        assert(hosts_text(hs.drop_first()) == hosts_text(hs.drop_first().drop_last()) + seq![' ']
            + hs.drop_first().last());
        assert(hs.drop_first().last() == hs.last());
        assert(hosts_text(hs) == hosts_text(hs.drop_last()) + seq![' '] + hs.last());
        assert((seq![' '] + hs[0] + hosts_text(hs.drop_last().drop_first())) + seq![' ']
            + hs.last() =~= seq![' '] + hs[0] + (hosts_text(hs.drop_first().drop_last())
            + seq![' '] + hs.drop_first().last()));
    }
}

/// Character shape of the alias text: it starts with a space, ends with a
/// token character, and holds only spaces and token characters.
proof fn lemma_hosts_text_chars(hs: Seq<Seq<char>>)
    requires
        forall|i: int| 0 <= i < hs.len() ==> token_wf(#[trigger] hs[i]),
    ensures
        forall|k: int|
            0 <= k < hosts_text(hs).len()
                ==> #[trigger] hosts_text(hs)[k] == ' ' || (!is_space(hosts_text(hs)[k])
                && hosts_text(hs)[k] != '#'),
        hs.len() > 0 ==> hosts_text(hs).len() > 0 && hosts_text(hs)[0] == ' ' && !is_space(
            hosts_text(hs).last(),
        ),
    decreases hs.len(),
{
    if hs.len() > 0 {
        assert forall|i: int| 0 <= i < hs.drop_last().len() implies token_wf(
            #[trigger] hs.drop_last()[i],
        ) by {
            assert(hs.drop_last()[i] == hs[i]);
        }
        lemma_hosts_text_chars(hs.drop_last());
        let t = hosts_text(hs);
        let pre = hosts_text(hs.drop_last());
        let last = hs.last();
        assert(t == pre + seq![' '] + last);
        assert(token_wf(last));
        assert(t.last() == last[last.len() - 1]);
        assert forall|k: int|
            0 <= k < t.len() implies #[trigger] t[k] == ' ' || (!is_space(t[k]) && t[k]
            != '#') by {
            if k < pre.len() {
                assert(t[k] == pre[k]);
            } else if k == pre.len() {
                assert(t[k] == ' ');
            } else {
                assert(t[k] == last[k - pre.len() - 1]);
            }
        }
        if hs.len() == 1 {
            assert(pre =~= Seq::<char>::empty());
            assert(t[0] == ' ');
        } else {
            assert(hs.drop_last().len() > 0);
            assert(t[0] == pre[0]);
        }
    }
}

/// Splitting the alias text on whitespace restores the alias tokens.
proof fn lemma_split_ws_of_hosts(hs: Seq<Seq<char>>)
    requires
        forall|i: int| 0 <= i < hs.len() ==> token_wf(#[trigger] hs[i]),
    ensures
        split_ws(hosts_text(hs)) == hs,
    decreases hs.len(),
{
    if hs.len() == 0 {
        assert(hosts_text(hs) =~= Seq::<char>::empty());
        assert(split_ws(hosts_text(hs)) =~~= Seq::<Seq<char>>::empty());
        assert(hs =~~= Seq::<Seq<char>>::empty());
    } else {
        lemma_hosts_text_front(hs);
        let s = hosts_text(hs);
        let h0 = hs[0];
        let rest = hosts_text(hs.drop_first());
        assert(s == seq![' '] + h0 + rest);
        assert(token_wf(h0));
        assert(s[0] == ' ');
        let s1 = s.drop_first();
        assert(s1 =~= h0 + rest);
        assert(split_ws(s) == split_ws(s1));
        assert(!is_space(s1[0])) by {
            assert(s1[0] == h0[0]);
        }
        assert forall|k: int| 0 <= k < h0.len() implies !is_space(s1[k]) by {
            assert(s1[k] == h0[k]);
        }
        assert forall|i: int| 0 <= i < hs.drop_first().len() implies token_wf(
            #[trigger] hs.drop_first()[i],
        ) by {
            assert(hs.drop_first()[i] == hs[i + 1]);
        }
        if hs.len() == 1 {
            assert(hs.drop_first() =~~= Seq::<Seq<char>>::empty());
            assert(rest =~= Seq::<char>::empty());
            assert(s1 =~= h0);
            lemma_first_space_is(s1, s1.len() as int);
            assert(split_ws(s1) == seq![s1.take(s1.len() as int)] + split_ws(
                s1.skip(s1.len() as int),
            ));
            assert(s1.take(s1.len() as int) =~= h0);
            assert(s1.skip(s1.len() as int) =~= Seq::<char>::empty());
            assert(split_ws(s1) =~~= seq![h0]);
            assert(hs =~~= seq![h0]);
        } else {
            assert(hs.drop_first().len() > 0);
            lemma_hosts_text_chars(hs.drop_first());
            assert(rest[0] == ' ');
            assert(s1[h0.len() as int] == rest[0]);
            lemma_first_space_is(s1, h0.len() as int);
            assert(split_ws(s1) == seq![s1.take(h0.len() as int)] + split_ws(
                s1.skip(h0.len() as int),
            ));
            assert(s1.take(h0.len() as int) =~= h0);
            assert(s1.skip(h0.len() as int) =~= rest);
            lemma_split_ws_of_hosts(hs.drop_first());
            assert(seq![h0] + hs.drop_first() =~~= hs);
        }
    }
}

/// Character shape of a data segment's text: it is non-empty, free of `#`
/// and of newlines, and has no whitespace at either end.
pub proof fn lemma_data_text_chars(d: DataModel)
    requires
        data_wf(d),
    ensures
        data_text(d).len() > 0,
        !is_space(data_text(d)[0]),
        !is_space(data_text(d).last()),
        forall|k: int| 0 <= k < data_text(d).len() ==> #[trigger] data_text(d)[k] != '#',
        forall|k: int| 0 <= k < data_text(d).len() ==> #[trigger] data_text(d)[k] != '\n',
        first_space(data_text(d)) == addr_text(d.ip).len(),
{
    let at = addr_text(d.ip);
    let ht = hosts_text(d.hosts);
    let t = data_text(d);
    crate::addr::lemma_addr_text_chars(d.ip);
    lemma_hosts_text_chars(d.hosts);
    assert(t == at + ht);
    assert(t[0] == at[0]);
    assert(crate::addr::is_addr_char(at[0]));
    assert(t.last() == ht.last());
    assert forall|k: int| 0 <= k < t.len() implies #[trigger] t[k] != '#' && t[k] != '\n' by {
        if k < at.len() {
            assert(t[k] == at[k]);
            assert(crate::addr::is_addr_char(at[k]));
        } else {
            assert(t[k] == ht[k - at.len()]);
        }
    }
    assert forall|k: int| 0 <= k < at.len() implies !is_space(t[k]) by {
        assert(t[k] == at[k]);
        assert(crate::addr::is_addr_char(at[k]));
    }
    assert(t[at.len() as int] == ht[0]);
    lemma_first_space_is(t, at.len() as int);
}

/// Parsing yields only well-formed lines.
pub proof fn lemma_parse_line_wf(s: Seq<char>, l: LineModel)
    requires
        parse_line_spec(s) == Ok::<LineModel, FormatError>(l),
    ensures
        line_wf(l),
{
    let h = first_index_of(s, '#');
    lemma_first_index_of_props(s, '#');
    if h < s.len() {
        let c = trim_start(s.skip(h + 1));
        lemma_first_nonspace_props(s.skip(h + 1));
        if c.len() > 0 {
            assert(c[0] == s.skip(h + 1)[first_nonspace(s.skip(h + 1))]);
        }
    }
    let seg = s.take(h);
    let t = trim(seg);
    if t.len() > 0 {
        lemma_trim_props(seg);
        let w = first_space(t);
        lemma_first_space_props(t);
        if w < t.len() && parse_addr(t.take(w)) is Some {
            let hosts = split_ws(t.skip(w));
            lemma_split_ws_props(t.skip(w));
            assert(t.skip(w).last() == t.last());
            lemma_split_ws_nonempty(t.skip(w));
            let fns = first_nonspace(seg);
            lemma_first_nonspace_props(seg);
            lemma_trim_end_props(trim_start(seg));
            assert(trim_start(seg) == seg.skip(fns));
            assert(t.len() <= seg.len() - fns);
            assert forall|k: int| 0 <= k < t.skip(w).len() implies #[trigger] t.skip(w)[k]
                != '#' by {
                assert(t.skip(w)[k] == t[w + k]);
                assert(t[w + k] == trim_start(seg)[w + k]);
                assert(trim_start(seg)[w + k] == seg[fns + (w + k)]);
                assert(seg[fns + (w + k)] == s[fns + (w + k)]);
                assert(fns + (w + k) < h);
            }
            lemma_split_ws_chars(t.skip(w), |c: char| c != '#');
            assert forall|i: int| 0 <= i < hosts.len() implies token_wf(#[trigger] hosts[i]) by {
                assert(hosts[i].len() > 0);
                assert(forall|j: int| 0 <= j < hosts[i].len() ==> !is_space(#[trigger] hosts[i][j]));
                assert(forall|j: int| 0 <= j < hosts[i].len() ==> #[trigger] hosts[i][j] != '#');
            }
        }
    }
}

/// Serializing a well-formed line and parsing the text yields the line back.
pub proof fn lemma_line_round_trip(l: LineModel)
    requires
        line_wf(l),
    ensures
        parse_line_spec(line_text(l)) == Ok::<LineModel, FormatError>(l),
{
    let s = line_text(l);
    match l.data {
        Some(d) => {
            let dt = data_text(d);
            lemma_data_text_chars(d);
            crate::addr::lemma_addr_round_trip(d.ip);
            lemma_split_ws_of_hosts(d.hosts);
            match l.comment {
                Some(c) => {
                    assert(s == dt + seq![' ', ' '] + seq!['#', ' '] + c);
                    assert(s[dt.len() as int + 2] == '#');
                    assert forall|k: int| 0 <= k < dt.len() + 2 implies #[trigger] s[k] != '#' by {
                        if k < dt.len() {
                            assert(s[k] == dt[k]);
                        } else {
                            assert(s[k] == ' ');
                        }
                    }
                    lemma_first_index_of_is(s, '#', dt.len() as int + 2);
                    let seg = s.take(dt.len() as int + 2);
                    assert(seg =~= dt + seq![' ', ' ']);
                    lemma_first_nonspace_is(seg, 0);
                    assert(trim_start(seg) == seg);
                    assert forall|k: int| dt.len() <= k < seg.len() implies is_space(seg[k]) by {
                        assert(seg[k] == ' ');
                    }
                    assert(seg[dt.len() - 1] == dt.last());
                    lemma_trim_end_is(seg, dt.len() as int);
                    assert(seg.take(dt.len() as int) =~= dt);
                    assert(trim(seg) == dt);
                    let rest = s.skip(dt.len() as int + 3);
                    assert(rest =~= seq![' '] + c);
                    lemma_trim_start_of_comment(c);
                    assert(dt.take(first_space(dt)) =~= addr_text(d.ip));
                    assert(dt.skip(first_space(dt)) =~= hosts_text(d.hosts));
                    assert(parse_data_spec(dt) == Ok::<DataModel, FormatError>(d));
                    assert(parse_line_spec(s) == Ok::<LineModel, FormatError>(l));
                },
                None => {
                    assert(s == dt);
                    assert forall|k: int| 0 <= k < s.len() implies #[trigger] s[k] != '#' by {}
                    lemma_first_index_of_is(s, '#', s.len() as int);
                    assert(s.take(s.len() as int) =~= s);
                    crate::text::lemma_trim_of_token(s);
                    assert(trim(s) == dt);
                    assert(dt.take(first_space(dt)) =~= addr_text(d.ip));
                    assert(dt.skip(first_space(dt)) =~= hosts_text(d.hosts));
                    assert(parse_data_spec(dt) == Ok::<DataModel, FormatError>(d));
                    assert(parse_line_spec(s) == Ok::<LineModel, FormatError>(l));
                },
            }
        },
        None => {
            match l.comment {
                Some(c) => {
                    assert(s =~= seq!['#', ' '] + c);
                    assert(s[0] == '#');
                    lemma_first_index_of_is(s, '#', 0);
                    assert(s.take(0) =~= Seq::<char>::empty());
                    assert(trim(Seq::<char>::empty()).len() == 0);
                    let rest = s.skip(1);
                    assert(rest =~= seq![' '] + c);
                    lemma_trim_start_of_comment(c);
                    assert(parse_line_spec(s) == Ok::<LineModel, FormatError>(l));
                },
                None => {
                    assert(s =~= Seq::<char>::empty());
                    assert(first_index_of(s, '#') == 0);
                    assert(s.take(0) =~= Seq::<char>::empty());
                    assert(trim(Seq::<char>::empty()).len() == 0);
                    assert(parse_line_spec(s) == Ok::<LineModel, FormatError>(l));
                },
            }
        },
    }
}

/// Left-trimming the serialized comment (one space, then the comment)
/// restores the comment.
proof fn lemma_trim_start_of_comment(c: Seq<char>)
    requires
        comment_wf(c),
    ensures
        trim_start(seq![' '] + c) == c,
{
    let s = seq![' '] + c;
    if c.len() == 0 {
        lemma_first_nonspace_is(s, 1);
        assert(s.skip(1) =~= c);
    } else {
        assert(s[1] == c[0]);
        lemma_first_nonspace_is(s, 1);
        assert(s.skip(1) =~= c);
    }
}

/// `trim_end` keeps a prefix and leaves no trailing whitespace.
pub proof fn lemma_trim_end_props(s: Seq<char>)
    ensures
        trim_end(s).len() <= s.len(),
        forall|i: int| 0 <= i < trim_end(s).len() ==> #[trigger] trim_end(s)[i] == s[i],
        trim_end(s).len() > 0 ==> !is_space(trim_end(s).last()),
    decreases s.len(),
{
    if s.len() > 0 && is_space(s.last()) {
        lemma_trim_end_props(s.drop_last());
        assert forall|i: int| 0 <= i < trim_end(s).len() implies #[trigger] trim_end(s)[i]
            == s[i] by {
            assert(trim_end(s)[i] == s.drop_last()[i]);
        }
    }
}

} // verus!
