//! The host table as an ordered sequence of lines, and the editor that
//! upserts an address/alias pair into the managed region marked by the
//! sentinel comment.

use vstd::prelude::*;
use vstd::string::*;
use crate::addr::HostAddr;
use crate::line::{
    Line, LineData, LineModel, DataModel, FormatError, parse_line_spec, line_text, line_is_empty,
};
use crate::text::split_str;
use crate::text::split_on;

verus! {

/// The whole table, top to bottom.
pub struct EtcHosts {
    pub lines: Vec<Line>,
}

impl View for EtcHosts {
    type V = Seq<LineModel>;

    open spec fn view(&self) -> Seq<LineModel> {
        self.lines.deep_view()
    }
}

/// One raw line with a trailing carriage return removed.
pub open spec fn strip_cr(s: Seq<char>) -> Seq<char> {
    if s.len() > 0 && s.last() == '\r' {
        s.drop_last()
    } else {
        s
    }
}

/// The physical lines of a text: pieces between newlines, a final newline
/// optional, each piece stripped of one trailing carriage return.
pub open spec fn split_lines(s: Seq<char>) -> Seq<Seq<char>> {
    if s.len() == 0 {
        seq![]
    } else {
        let p = split_on(s, '\n');
        let q = if p.last().len() == 0 {
            p.drop_last()
        } else {
            p
        };
        q.map(|i: int, x: Seq<char>| strip_cr(x))
    }
}

/// Parse the given raw lines in order; the first failure wins.
pub open spec fn parse_lines(ls: Seq<Seq<char>>) -> Result<Seq<LineModel>, FormatError>
    decreases ls.len(),
{
    if ls.len() == 0 {
        Ok(Seq::empty())
    } else {
        match parse_line_spec(ls[0]) {
            Err(e) => Err(e),
            Ok(l) => match parse_lines(ls.drop_first()) {
                Err(e) => Err(e),
                Ok(r) => Ok(seq![l] + r),
            },
        }
    }
}

/// Drop blank lines from the end.
pub open spec fn trim_trailing_empty(ls: Seq<LineModel>) -> Seq<LineModel>
    decreases ls.len(),
{
    if ls.len() > 0 && line_is_empty(ls.last()) {
        trim_trailing_empty(ls.drop_last())
    } else {
        ls
    }
}

/// Parse a whole table: every line must parse; trailing blank lines are
/// dropped.
pub open spec fn parse_table_spec(s: Seq<char>) -> Result<Seq<LineModel>, FormatError> {
    match parse_lines(split_lines(s)) {
        Ok(ls) => Ok(trim_trailing_empty(ls)),
        Err(e) => Err(e),
    }
}

/// Serialized table: each line's text followed by a newline.
pub open spec fn table_text(ls: Seq<LineModel>) -> Seq<char>
    decreases ls.len(),
{
    if ls.len() == 0 {
        Seq::empty()
    } else {
        table_text(ls.drop_last()) + line_text(ls.last()) + seq!['\n']
    }
}

/// The sentinel comment text that marks the managed region.
pub open spec fn sentinel() -> Seq<char> {
    "ISUCON Servers"@
}

pub open spec fn is_sentinel(l: LineModel) -> bool {
    l.comment == Some(sentinel())
}

/// Index of the first sentinel line, or `ls.len()` if there is none.
pub open spec fn sentinel_idx(ls: Seq<LineModel>) -> int
    decreases ls.len(),
{
    if ls.len() == 0 {
        0
    } else if is_sentinel(ls[0]) {
        0
    } else {
        1 + sentinel_idx(ls.drop_first())
    }
}

pub proof fn lemma_sentinel_idx_props(ls: Seq<LineModel>)
    ensures
        0 <= sentinel_idx(ls) <= ls.len(),
        sentinel_idx(ls) < ls.len() ==> is_sentinel(ls[sentinel_idx(ls)]),
        forall|j: int| 0 <= j < sentinel_idx(ls) ==> !is_sentinel(#[trigger] ls[j]),
    decreases ls.len(),
{
    if ls.len() > 0 && !is_sentinel(ls[0]) {
        lemma_sentinel_idx_props(ls.drop_first());
        assert forall|j: int| 0 <= j < sentinel_idx(ls) implies !is_sentinel(#[trigger] ls[j]) by {
            if j > 0 {
                assert(ls[j] == ls.drop_first()[j - 1]);
            }
        }
    }
}

pub proof fn lemma_sentinel_idx_is(ls: Seq<LineModel>, j: int)
    requires
        0 <= j <= ls.len(),
        forall|k: int| 0 <= k < j ==> !is_sentinel(#[trigger] ls[k]),
        j < ls.len() ==> is_sentinel(ls[j]),
        j == ls.len() ==> forall|k: int| 0 <= k < ls.len() ==> !is_sentinel(#[trigger] ls[k]),
    ensures
        sentinel_idx(ls) == j,
    decreases ls.len(),
{
    if ls.len() > 0 && !is_sentinel(ls[0]) {
        lemma_sentinel_idx_is(ls.drop_first(), j - 1);
    }
}

/// A blank line.
pub open spec fn empty_line() -> LineModel {
    LineModel { data: None, comment: None }
}

/// The comment-only line that marks the managed region.
pub open spec fn sentinel_line() -> LineModel {
    LineModel { data: None, comment: Some(sentinel()) }
}

/// A data-only line mapping `ip` to the single alias `h`.
pub open spec fn data_line(ip: HostAddr, h: Seq<char>) -> LineModel {
    LineModel { data: Some(DataModel { ip, hosts: seq![h] }), comment: None }
}

/// The table with a managed region: unchanged when a sentinel line exists,
/// else a sentinel line is appended, preceded by one blank separator when
/// the table ends in a non-blank line.
pub open spec fn with_region(ls: Seq<LineModel>) -> Seq<LineModel> {
    if sentinel_idx(ls) < ls.len() {
        ls
    } else {
        let base = if ls.len() > 0 && !line_is_empty(ls.last()) {
            ls + seq![empty_line()]
        } else {
            ls
        };
        base + seq![sentinel_line()]
    }
}

/// Whether some alias of the line equals `h`.
pub open spec fn line_has_host(l: LineModel, h: Seq<char>) -> bool {
    match l.data {
        Some(d) => d.hosts.contains(h),
        None => false,
    }
}

/// Index of the first line one of whose aliases is `h`, or `ls.len()`.
pub open spec fn first_host_line(ls: Seq<LineModel>, h: Seq<char>) -> int
    decreases ls.len(),
{
    if ls.len() == 0 {
        0
    } else if line_has_host(ls[0], h) {
        0
    } else {
        1 + first_host_line(ls.drop_first(), h)
    }
}

pub proof fn lemma_first_host_line_props(ls: Seq<LineModel>, h: Seq<char>)
    ensures
        0 <= first_host_line(ls, h) <= ls.len(),
        first_host_line(ls, h) < ls.len() ==> line_has_host(ls[first_host_line(ls, h)], h),
        forall|j: int| 0 <= j < first_host_line(ls, h) ==> !line_has_host(#[trigger] ls[j], h),
    decreases ls.len(),
{
    if ls.len() > 0 && !line_has_host(ls[0], h) {
        lemma_first_host_line_props(ls.drop_first(), h);
        assert forall|j: int|
            0 <= j < first_host_line(ls, h) implies !line_has_host(#[trigger] ls[j], h) by {
            if j > 0 {
                assert(ls[j] == ls.drop_first()[j - 1]);
            }
        }
    }
}

pub proof fn lemma_first_host_line_is(ls: Seq<LineModel>, h: Seq<char>, j: int)
    requires
        0 <= j <= ls.len(),
        forall|k: int| 0 <= k < j ==> !line_has_host(#[trigger] ls[k], h),
        j < ls.len() ==> line_has_host(ls[j], h),
        j == ls.len() ==> forall|k: int| 0 <= k < ls.len() ==> !line_has_host(#[trigger] ls[k], h),
    ensures
        first_host_line(ls, h) == j,
    decreases ls.len(),
{
    if ls.len() > 0 && !line_has_host(ls[0], h) {
        lemma_first_host_line_is(ls.drop_first(), h, j - 1);
    }
}

/// The alias list with the first occurrence of `h` removed.
pub open spec fn remove_first_host(hs: Seq<Seq<char>>, h: Seq<char>) -> Seq<Seq<char>>
    decreases hs.len(),
{
    if hs.len() == 0 {
        hs
    } else if hs[0] == h {
        hs.drop_first()
    } else {
        seq![hs[0]] + remove_first_host(hs.drop_first(), h)
    }
}

/// Removal at a pinned first occurrence.
pub proof fn lemma_remove_first_host_is(hs: Seq<Seq<char>>, h: Seq<char>, j: int)
    requires
        0 <= j < hs.len(),
        hs[j] == h,
        forall|k: int| 0 <= k < j ==> #[trigger] hs[k] != h,
    ensures
        remove_first_host(hs, h) == hs.remove(j),
    decreases hs.len(),
{
    if hs[0] == h {
        assert(j == 0);
        assert(hs.remove(0) =~~= hs.drop_first());
    } else {
        assert forall|k: int| 0 <= k < j - 1 implies #[trigger] hs.drop_first()[k] != h by {
            assert(hs.drop_first()[k] == hs[k + 1]);
        }
        lemma_remove_first_host_is(hs.drop_first(), h, j - 1);
        assert(seq![hs[0]] + hs.drop_first().remove(j - 1) =~~= hs.remove(j));
    }
}

/// The table after the dedup step: the first line whose aliases contain `h`
/// loses that one alias, and is deleted entirely when nothing remains.
pub open spec fn dedup_host(ls: Seq<LineModel>, h: Seq<char>) -> Seq<LineModel> {
    let i = first_host_line(ls, h);
    if i == ls.len() {
        ls
    } else {
        let d = ls[i].data->Some_0;
        let hs2 = remove_first_host(d.hosts, h);
        if hs2.len() == 0 {
            ls.remove(i)
        } else {
            ls.update(
                i,
                LineModel { data: Some(DataModel { ip: d.ip, hosts: hs2 }), comment: ls[i].comment },
            )
        }
    }
}

/// First index at or after `i` holding a blank line, or `ls.len()`.
pub open spec fn insert_idx(ls: Seq<LineModel>, i: int) -> int
    decreases ls.len() - i,
{
    if i < 0 || i >= ls.len() {
        ls.len() as int
    } else if line_is_empty(ls[i]) {
        i
    } else {
        insert_idx(ls, i + 1)
    }
}

pub proof fn lemma_insert_idx_is(ls: Seq<LineModel>, i: int, j: int)
    requires
        0 <= i <= j <= ls.len(),
        forall|k: int| i <= k < j ==> !line_is_empty(#[trigger] ls[k]),
        j < ls.len() ==> line_is_empty(ls[j]),
    ensures
        insert_idx(ls, i) == j,
    decreases ls.len() - i,
{
    if i < j {
        lemma_insert_idx_is(ls, i + 1, j);
    }
}

/// The whole editing step on the model: dedup, locate or create the managed
/// region, and insert the new data line at the end of the region's
/// contiguous non-blank run.
pub open spec fn add_data_spec(ls: Seq<LineModel>, ip: HostAddr, h: Seq<char>) -> Seq<LineModel> {
    let d = dedup_host(ls, h);
    let r = with_region(d);
    let j = insert_idx(r, sentinel_idx(r));
    r.insert(j, data_line(ip, h))
}

/// `Ok(pre + g)` when `r` is `Ok(g)`.
pub open spec fn res_prepend(pre: Seq<LineModel>, r: Result<Seq<LineModel>, FormatError>) -> Result<
    Seq<LineModel>,
    FormatError,
> {
    match r {
        Ok(g) => Ok(pre + g),
        Err(e) => Err(e),
    }
}

impl EtcHosts {
    /// Parse a whole host table from text.
    pub fn from_str(s: &str) -> (r: Result<EtcHosts, FormatError>)
        ensures
            match r {
                Ok(t) => parse_table_spec(s@) == Ok::<Seq<LineModel>, FormatError>(t@),
                Err(e) => parse_table_spec(s@) == Err::<Seq<LineModel>, FormatError>(e),
            },
    {
        let mut lines: Vec<Line> = Vec::new();
        if s.unicode_len() == 0 {
            proof {
                assert(split_lines(s@) =~~= Seq::<Seq<char>>::empty());
                assert(lines.deep_view() =~~= Seq::<LineModel>::empty());
                assert(trim_trailing_empty(Seq::<LineModel>::empty())
                    =~~= Seq::<LineModel>::empty());
            }
            return Ok(EtcHosts { lines });
        }
        let pieces = split_str(s, '\n');
        let ghost p = split_on(s@, '\n');
        let total = pieces.len();
        proof {
            crate::text::lemma_split_on_props(s@, '\n');
            assert(pieces.deep_view().len() == pieces@.len());
            assert(total >= 1);
            assert(pieces.deep_view()[total as int - 1] == pieces@[total as int - 1]@);
        }
        let count = if pieces[total - 1].as_str().unicode_len() == 0 {
            total - 1
        } else {
            total
        };
        let ghost q = if p.last().len() == 0 {
            p.drop_last()
        } else {
            p
        };
        let ghost lm = split_lines(s@);
        proof {
            assert(count as int == q.len());
            assert(lm == q.map(|i: int, x: Seq<char>| strip_cr(x)));
            assert(lm.len() == q.len());
            assert forall|i: int| 0 <= i < q.len() implies #[trigger] lm[i] == strip_cr(q[i]) by {}
            assert forall|i: int| 0 <= i < q.len() implies #[trigger] q[i] == p[i] by {}
            assert(lm.skip(0) =~~= lm);
            assert(lines.deep_view() =~~= Seq::<LineModel>::empty());
            match parse_lines(lm) {
                Ok(g) => {
                    assert(Seq::<LineModel>::empty() + g =~~= g);
                },
                Err(_) => {},
            }
        }
        let mut k: usize = 0;
        while k < count
            invariant
                0 <= k <= count,
                count <= total,
                total == pieces@.len(),
                pieces.deep_view() == p,
                p == split_on(s@, '\n'),
                count as int == q.len(),
                lm == split_lines(s@),
                lm.len() == q.len(),
                forall|i: int| 0 <= i < q.len() ==> #[trigger] lm[i] == strip_cr(q[i]),
                forall|i: int| 0 <= i < q.len() ==> #[trigger] q[i] == p[i],
                parse_lines(lm) == res_prepend(lines.deep_view(), parse_lines(lm.skip(k as int))),
            decreases count - k,
        {
            let piece: &String = &pieces[k];
            let pn = piece.as_str().unicode_len();
            let stripped: &str = if pn > 0 && piece.as_str().get_char(pn - 1) == '\r' {
                piece.as_str().substring_char(0, pn - 1)
            } else {
                piece.as_str()
            };
            proof {
                assert(pieces.deep_view()[k as int] == pieces@[k as int]@);
                assert(piece@ == p[k as int]);
                if pn > 0 && piece@.last() == '\r' {
                    assert(stripped@ =~= piece@.drop_last());
                    assert(stripped@ == strip_cr(piece@));
                } else {
                    assert(stripped@ == strip_cr(piece@));
                }
                assert(stripped@ == lm[k as int]);
                assert(lm.skip(k as int)[0] == lm[k as int]);
                assert(lm.skip(k as int).drop_first() =~~= lm.skip(k as int + 1));
            }
            match Line::from_str(stripped) {
                Ok(l) => {
                    let ghost prev = lines.deep_view();
                    lines.push(l);
                    proof {
                        assert(lines.deep_view() =~~= prev.push(l@));
                        match parse_lines(lm.skip(k as int + 1)) {
                            Ok(rest) => {
                                assert(parse_lines(lm.skip(k as int))
                                    == Ok::<Seq<LineModel>, FormatError>(seq![l@] + rest));
                                assert(prev + (seq![l@] + rest) =~~= lines.deep_view() + rest);
                            },
                            Err(_) => {},
                        }
                    }
                    k += 1;
                },
                Err(e) => {
                    proof {
                        assert(parse_lines(lm.skip(k as int)) == Err::<
                            Seq<LineModel>,
                            FormatError,
                        >(e));
                    }
                    return Err(e);
                },
            }
        }
        proof {
            assert(lm.skip(count as int) =~~= Seq::<Seq<char>>::empty());
            assert(parse_lines(Seq::<Seq<char>>::empty()) == Ok::<Seq<LineModel>, FormatError>(
                Seq::empty(),
            ));
            assert(lines.deep_view() + Seq::<LineModel>::empty() =~~= lines.deep_view());
            assert(parse_lines(lm) == Ok::<Seq<LineModel>, FormatError>(lines.deep_view()));
        }
        let ghost parsed = lines.deep_view();
        while lines.len() > 0 && lines[lines.len() - 1].is_empty()
            invariant
                trim_trailing_empty(parsed) == trim_trailing_empty(lines.deep_view()),
            decreases lines@.len(),
        {
            let ghost before = lines.deep_view();
            proof {
                assert(before[before.len() - 1] == lines@[lines@.len() - 1]@);
                assert(line_is_empty(before.last()));
            }
            lines.pop();
            proof {
                assert(lines.deep_view() =~~= before.drop_last());
            }
        }
        proof {
            let dv = lines.deep_view();
            if dv.len() > 0 {
                assert(dv[dv.len() - 1] == lines@[lines@.len() - 1]@);
                assert(!line_is_empty(dv.last()));
            }
            assert(trim_trailing_empty(dv) == dv);
        }
        Ok(EtcHosts { lines })
    }

    /// Serialize the table; every line, the last included, ends in a newline.
    pub fn to_string(&self) -> (r: String)
        ensures
            r@ == table_text(self@),
    {
        let mut out = String::new();
        let ghost dv = self@;
        proof {
            assert(dv.take(0) =~= Seq::<LineModel>::empty());
            assert(table_text(Seq::<LineModel>::empty()) == Seq::<char>::empty());
            assert(out@ =~= Seq::<char>::empty());
        }
        let mut i: usize = 0;
        while i < self.lines.len()
            invariant
                0 <= i <= self.lines@.len(),
                dv == self@,
                dv.len() == self.lines@.len(),
                out@ == table_text(dv.take(i as int)),
            decreases self.lines@.len() - i,
        {
            self.lines[i].write_into(&mut out);
            proof {
                reveal_strlit("\n");
            }
            out.append("\n");
            proof {
                assert(dv[i as int] == self.lines@[i as int]@);
                assert(dv.take(i as int + 1).drop_last() =~= dv.take(i as int));
                assert(dv.take(i as int + 1).last() == dv[i as int]);
                assert(("\n"@) =~= seq!['\n']);
                assert(out@ =~= table_text(dv.take(i as int)) + line_text(dv[i as int])
                    + seq!['\n']);
            }
            i += 1;
        }
        proof {
            assert(dv.take(dv.len() as int) =~= dv);
        }
        out
    }

    /// Find the sentinel line, creating the managed region at the end of the
    /// table when it is missing; return the sentinel's index.
    fn add_my_region(&mut self) -> (i: usize)
        ensures
            final(self)@ == with_region(old(self)@),
            i as int == sentinel_idx(final(self)@),
            i < final(self)@.len(),
    {
        let sent: String = String::from_str("ISUCON Servers");
        let ghost dv = self@;
        let n = self.lines.len();
        proof {
            assert(dv.len() == n);
        }
        let mut k: usize = 0;
        while k < n
            invariant
                0 <= k <= n,
                n == self.lines@.len(),
                dv == self@,
                self == old(self),
                sent@ == sentinel(),
                forall|j: int| 0 <= j < k ==> !is_sentinel(#[trigger] dv[j]),
            decreases n - k,
        {
            let issent = match &self.lines[k].comment {
                Some(c) => c.eq(&sent),
                None => false,
            };
            proof {
                assert(dv[k as int] == self.lines@[k as int]@);
            }
            if issent {
                proof {
                    assert(is_sentinel(dv[k as int]));
                    lemma_sentinel_idx_is(dv, k as int);
                }
                return k;
            }
            proof {
                assert(!is_sentinel(dv[k as int]));
            }
            k += 1;
        }
        proof {
            lemma_sentinel_idx_is(dv, dv.len() as int);
        }
        let need_sep = if self.lines.len() > 0 {
            let last_empty = self.lines[self.lines.len() - 1].is_empty();
            proof {
                assert(dv[dv.len() - 1] == self.lines@[self.lines@.len() - 1]@);
            }
            !last_empty
        } else {
            false
        };
        let ghost base = if dv.len() > 0 && !line_is_empty(dv.last()) {
            dv + seq![empty_line()]
        } else {
            dv
        };
        if need_sep {
            self.lines.push(Line { data: None, comment: None });
            proof {
                assert(self@ =~= dv.push(empty_line()));
                assert(dv.push(empty_line()) =~= base);
            }
        }
        proof {
            assert(self@ == base);
        }
        self.lines.push(Line { data: None, comment: Some(sent) });
        proof {
            assert(self@ =~= base.push(sentinel_line()));
            assert(self@ == with_region(dv));
            assert forall|j: int| 0 <= j < self@.len() - 1 implies !is_sentinel(
                #[trigger] self@[j],
            ) by {
                if j < dv.len() {
                    assert(self@[j] == dv[j]);
                } else {
                    assert(self@[j] == empty_line());
                }
            }
            assert(is_sentinel(self@[self@.len() - 1]));
            lemma_sentinel_idx_is(self@, self@.len() - 1);
        }
        self.lines.len() - 1
    }

    /// Ensure that `ip` maps to the alias `host`: remove the first earlier
    /// occurrence of the alias anywhere in the table, then insert a fresh
    /// line at the end of the managed region's contiguous non-blank run,
    /// creating the region if need be.
    pub fn add_data(&mut self, ip: HostAddr, host: &str)
        ensures
            final(self)@ == add_data_spec(old(self)@, ip, host@),
    {
        let ghost dv0 = self@;
        let t: String = host.to_owned();
        let n = self.lines.len();
        let mut k: usize = 0;
        let mut found = false;
        while !found && k < n
            invariant
                0 <= k <= n,
                n == self.lines@.len(),
                dv0 == self@,
                self == old(self),
                t@ == host@,
                forall|j: int| 0 <= j < k ==> !line_has_host(#[trigger] dv0[j], host@),
                found ==> k < n && line_has_host(dv0[k as int], host@),
            decreases (if found { 0int } else { 1int }), n - k,
        {
            let has = match &self.lines[k].data {
                Some(d) => hosts_contains(&d.hosts, &t),
                None => false,
            };
            proof {
                assert(dv0[k as int] == self.lines@[k as int]@);
            }
            if has {
                found = true;
            } else {
                proof {
                    assert(!line_has_host(dv0[k as int], host@));
                }
                k += 1;
            }
        }
        let ghost dv1 = dedup_host(dv0, host@);
        if found {
            proof {
                lemma_first_host_line_is(dv0, host@, k as int);
            }
            let mut newhosts: Vec<String> = Vec::new();
            let ipk: HostAddr;
            let cmt: Option<String>;
            let ghost oldline = dv0[k as int];
            {
                let line = &self.lines[k];
                proof {
                    assert(oldline == line@);
                }
                match &line.data {
                    Some(d) => {
                        ipk = d.ip;
                        let ghost hdv = d.hosts.deep_view();
                        proof {
                            assert(oldline.data->Some_0.hosts == hdv);
                            assert(hdv.contains(host@));
                        }
                        let m = d.hosts.len();
                        let mut j0: usize = 0;
                        while j0 < m && !d.hosts[j0].eq(&t)
                            invariant
                                0 <= j0 <= m,
                                m == d.hosts@.len(),
                                hdv == d.hosts.deep_view(),
                                hdv.len() == m,
                                t@ == host@,
                                forall|x: int| 0 <= x < j0 ==> hdv[x] != host@,
                            decreases m - j0,
                        {
                            proof {
                                assert(hdv[j0 as int] == d.hosts@[j0 as int]@);
                            }
                            j0 += 1;
                        }
                        proof {
                            if j0 == m {
                                let w = choose|w: int| 0 <= w < hdv.len() && hdv[w] == host@;
                                assert(hdv[w] != host@);
                            }
                            assert(j0 < m);
                            assert(hdv[j0 as int] == d.hosts@[j0 as int]@);
                            lemma_remove_first_host_is(hdv, host@, j0 as int);
                        }
                        let mut x: usize = 0;
                        while x < m
                            invariant
                                0 <= x <= m,
                                j0 < m,
                                m == d.hosts@.len(),
                                hdv == d.hosts.deep_view(),
                                hdv.len() == m,
                                hdv[j0 as int] == host@,
                                newhosts.deep_view() == (if x <= j0 {
                                    hdv.take(x as int)
                                } else {
                                    hdv.remove(j0 as int).take(x as int - 1)
                                }),
                            decreases m - x,
                        {
                            if x != j0 {
                                let ghost prev = newhosts.deep_view();
                                newhosts.push(d.hosts[x].clone());
                                proof {
                                    assert(hdv[x as int] == d.hosts@[x as int]@);
                                    assert(newhosts.deep_view() =~~= prev.push(hdv[x as int]));
                                    if x < j0 {
                                        assert(hdv.take(x as int).push(hdv[x as int]) =~~= hdv.take(
                                            x as int + 1,
                                        ));
                                    } else {
                                        assert(hdv.remove(j0 as int)[x as int - 1] == hdv[
                                            x as int]);
                                        assert(hdv.remove(j0 as int).take(x as int - 1).push(
                                            hdv[x as int],
                                        ) =~~= hdv.remove(j0 as int).take(x as int));
                                    }
                                }
                            } else {
                                proof {
                                    assert(hdv.take(j0 as int) =~~= hdv.remove(j0 as int).take(
                                        j0 as int,
                                    ));
                                }
                            }
                            x += 1;
                        }
                        proof {
                            assert(newhosts.deep_view() =~~= hdv.remove(j0 as int));
                        }
                        cmt = match &line.comment {
                            Some(c) => Some(c.clone()),
                            None => None,
                        };
                    },
                    None => {
                        proof {
                            assert(line_has_host(oldline, host@));
                            assert(false);
                        }
                        ipk = HostAddr::V4(0, 0, 0, 0);
                        cmt = None;
                    },
                }
            }
            proof {
                assert(newhosts.deep_view() == remove_first_host(
                    oldline.data->Some_0.hosts,
                    host@,
                ));
            }
            if newhosts.len() == 0 {
                self.lines.remove(k);
                proof {
                    assert(self@ =~~= dv0.remove(k as int));
                    assert(dv1 == self@);
                }
            } else {
                let newline = Line { data: Some(LineData { ip: ipk, hosts: newhosts }), comment: cmt };
                proof {
                    assert(newline@.data->Some_0.hosts == remove_first_host(
                        oldline.data->Some_0.hosts,
                        host@,
                    ));
                    assert(newline@.comment == oldline.comment);
                }
                self.lines[k] = newline;
                proof {
                    assert(self@ =~~= dv0.update(k as int, newline@));
                    assert(dv1 =~~= self@);
                    assert(dv1 == self@);
                }
            }
        } else {
            proof {
                lemma_first_host_line_is(dv0, host@, dv0.len() as int);
                assert(dv1 == dv0);
            }
        }
        proof {
            assert(self@ == dv1);
        }
        let i = self.add_my_region();
        let ghost dv2 = self@;
        proof {
            assert(dv2 == with_region(dv1));
        }
        let mut j = i;
        while j < self.lines.len() && !self.lines[j].is_empty()
            invariant
                i <= j <= self.lines@.len(),
                dv2 == self@,
                dv2.len() == self.lines@.len(),
                forall|m: int| i <= m < j ==> !line_is_empty(#[trigger] dv2[m]),
            decreases self.lines@.len() - j,
        {
            proof {
                assert(dv2[j as int] == self.lines@[j as int]@);
            }
            j += 1;
        }
        proof {
            if (j as int) < dv2.len() {
                assert(dv2[j as int] == self.lines@[j as int]@);
                assert(line_is_empty(dv2[j as int]));
            }
            lemma_insert_idx_is(dv2, i as int, j as int);
        }
        let newhosts: Vec<String> = vec![host.to_owned()];
        proof {
            assert(newhosts.deep_view() =~~= seq![host@]);
        }
        let newline = Line { data: Some(LineData { ip, hosts: newhosts }), comment: None };
        proof {
            assert(newline@ == data_line(ip, host@));
        }
        self.lines.insert(j, newline);
        proof {
            assert(self@ =~~= dv2.insert(j as int, data_line(ip, host@)));
            assert(self@ == add_data_spec(dv0, ip, host@));
        }
    }
}

/// Whether any alias of the line `v` equals `t`.
fn hosts_contains(v: &Vec<String>, t: &String) -> (b: bool)
    ensures
        b == v.deep_view().contains(t@),
{
    let ghost dv = v.deep_view();
    let mut i: usize = 0;
    while i < v.len()
        invariant
            0 <= i <= v@.len(),
            dv == v.deep_view(),
            dv.len() == v@.len(),
            forall|j: int| 0 <= j < i ==> dv[j] != t@,
        decreases v@.len() - i,
    {
        if v[i].eq(t) {
            proof {
                assert(dv[i as int] == v@[i as int]@);
                assert(dv.contains(t@));
            }
            return true;
        }
        proof {
            assert(dv[i as int] == v@[i as int]@);
        }
        i += 1;
    }
    proof {
        assert(!dv.contains(t@)) by {
            if dv.contains(t@) {
                let j = choose|j: int| 0 <= j < dv.len() && dv[j] == t@;
                assert(dv[j] != t@);
            }
        }
    }
    false
}

/// Remove the first element of `v` equal to `target`; report whether one
/// was found.
pub fn remove_first(v: &mut Vec<String>, target: &str) -> (found: bool)
    ensures
        final(v).deep_view() == remove_first_host(old(v).deep_view(), target@),
        found == old(v).deep_view().contains(target@),
{
    let ghost dv = v.deep_view();
    let t: String = target.to_owned();
    let mut i: usize = 0;
    while i < v.len()
        invariant
            0 <= i <= v@.len(),
            dv == v.deep_view(),
            dv == old(v).deep_view(),
            v == old(v),
            dv.len() == v@.len(),
            t@ == target@,
            forall|j: int| 0 <= j < i ==> dv[j] != target@,
        decreases v@.len() - i,
    {
        if v[i].eq(&t) {
            proof {
                assert(dv[i as int] == v@[i as int]@);
                assert(dv.contains(target@));
                lemma_remove_first_host_is(dv, target@, i as int);
            }
            v.remove(i);
            proof {
                assert(v.deep_view() =~~= dv.remove(i as int));
            }
            return true;
        }
        proof {
            assert(dv[i as int] == v@[i as int]@);
        }
        i += 1;
    }
    proof {
        assert(!dv.contains(target@)) by {
            if dv.contains(target@) {
                let j = choose|j: int| 0 <= j < dv.len() && dv[j] == target@;
                assert(dv[j] != target@);
            }
        }
        assert(remove_first_host(dv, target@) == dv) by {
            lemma_remove_first_host_absent(dv, target@);
        }
    }
    false
}

/// Removing an absent element changes nothing.
pub proof fn lemma_remove_first_host_absent(hs: Seq<Seq<char>>, h: Seq<char>)
    requires
        !hs.contains(h),
    ensures
        remove_first_host(hs, h) == hs,
    decreases hs.len(),
{
    if hs.len() > 0 {
        assert(hs[0] != h);
        assert(!hs.drop_first().contains(h)) by {
            if hs.drop_first().contains(h) {
                let j = choose|j: int|
                    0 <= j < hs.drop_first().len() && hs.drop_first()[j] == h;
                assert(hs[j + 1] == h);
                assert(hs.contains(h));
            }
        }
        lemma_remove_first_host_absent(hs.drop_first(), h);
        assert(seq![hs[0]] + hs.drop_first() =~~= hs);
    }
}

} // verus!
