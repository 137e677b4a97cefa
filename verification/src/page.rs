//! The versioned tree-node record.  A page has a stable identity,
//! assigned once at creation and kept across every edit, and a storage
//! address — the hash of its serialized form — that changes whenever
//! any field changes.  Pages are immutable once written: editing always
//! produces a new record at a new address.

use vstd::prelude::*;
use vstd::string::StrSliceExecFns;
use crate::codec::{
    digits_run, enc_pairs, fits_len, parse_dict, parse_tok, sp_dict, sp_pairs, sp_tok, tok_enc, tok_write,
    write_dict,
};
use crate::dict::{seq_insert, seq_remove, unique_keys, Dict};
use crate::errors::HrdbError;
use crate::store::{read, Store};
use crate::strutil::no_char;
use crate::token::stamp;

verus! {

/// The mathematical value of a page: its stable id, metadata fields,
/// title, content-blob address, and the map from child ids to the
/// children's current addresses — the field and child maps as ordered
/// pair sequences, since their order is part of the stored record.
pub ghost struct PageV {
    pub id: Seq<char>,
    pub fields: Seq<(Seq<char>, Seq<char>)>,
    pub title: Seq<char>,
    pub content: Seq<char>,
    pub children: Seq<(Seq<char>, Seq<char>)>,
}

impl PageV {
    /// Field keys and child ids are unique.
    pub open spec fn wf(&self) -> bool {
        unique_keys(self.fields) && unique_keys(self.children)
    }

    /// Every component is small enough for the record codec; anything
    /// that fits in memory is.
    pub open spec fn fits(&self) -> bool {
        &&& fits_len(self.id.len())
        &&& fits_len(self.title.len())
        &&& fits_len(self.content.len())
        &&& fits_len(self.fields.len())
        &&& fits_len(self.children.len())
        &&& forall|t: int|
            0 <= t < self.fields.len() ==> fits_len((#[trigger] self.fields[t]).0.len())
                && fits_len(self.fields[t].1.len())
        &&& forall|t: int|
            0 <= t < self.children.len() ==> fits_len((#[trigger] self.children[t]).0.len())
                && fits_len(self.children[t].1.len())
    }
}

/// The serialized form of a page: five token blocks in record order.
pub open spec fn enc_page(p: PageV) -> Seq<char> {
    tok_enc(p.id) + enc_pairs(p.fields) + tok_enc(p.title) + tok_enc(p.content) + enc_pairs(
        p.children,
    )
}

/// Decode a serialized page; `None` on any malformed record.
pub open spec fn dec_page(s: Seq<char>) -> Option<PageV> {
    match sp_tok(s, 0) {
        None => None,
        Some(idp) => match sp_dict(s, idp.1) {
            None => None,
            Some(fp) => match sp_tok(s, fp.1) {
                None => None,
                Some(tp) => match sp_tok(s, tp.1) {
                    None => None,
                    Some(cp) => match sp_dict(s, cp.1) {
                        None => None,
                        Some(chp) => if chp.1 == s.len() {
                            Some(
                                PageV {
                                    id: idp.0,
                                    fields: fp.0,
                                    title: tp.0,
                                    content: cp.0,
                                    children: chp.0,
                                },
                            )
                        } else {
                            None
                        },
                    },
                },
            },
        },
    }
}

/// The page stored at `addr`, if the key exists and decodes.
#[verifier::opaque]
pub open spec fn page_at(m: Map<Seq<char>, Seq<char>>, addr: Seq<char>) -> Option<PageV> {
    if m.contains_key(addr) {
        dec_page(m[addr])
    } else {
        None
    }
}

/// Decoding an encoded page gives back exactly the page: the record
/// syntax loses nothing.
pub proof fn lemma_page_round_trip(p: PageV)
    requires
        p.wf(),
        p.fits(),
    ensures
        dec_page(enc_page(p)) == Some(p),
{
    let s = enc_page(p);
    let a0 = Seq::<char>::empty();
    let a1 = a0 + tok_enc(p.id);
    let a2 = a1 + enc_pairs(p.fields);
    let a3 = a2 + tok_enc(p.title);
    let a4 = a3 + tok_enc(p.content);
    let a5 = a4 + enc_pairs(p.children);
    assert(s =~= a0 + tok_enc(p.id) + (enc_pairs(p.fields) + tok_enc(p.title) + tok_enc(p.content)
        + enc_pairs(p.children)));
    crate::codec::lemma_sp_tok_at(
        a0,
        p.id,
        enc_pairs(p.fields) + tok_enc(p.title) + tok_enc(p.content) + enc_pairs(p.children),
    );
    assert(s =~= a1 + enc_pairs(p.fields) + (tok_enc(p.title) + tok_enc(p.content) + enc_pairs(
        p.children,
    )));
    crate::codec::lemma_sp_dict_at(
        a1,
        p.fields,
        tok_enc(p.title) + tok_enc(p.content) + enc_pairs(p.children),
    );
    assert(s =~= a2 + tok_enc(p.title) + (tok_enc(p.content) + enc_pairs(p.children)));
    crate::codec::lemma_sp_tok_at(a2, p.title, tok_enc(p.content) + enc_pairs(p.children));
    assert(s =~= a3 + tok_enc(p.content) + enc_pairs(p.children));
    crate::codec::lemma_sp_tok_at(a3, p.content, enc_pairs(p.children));
    assert(s =~= a4 + enc_pairs(p.children) + Seq::<char>::empty());
    crate::codec::lemma_sp_dict_at(a4, p.children, Seq::<char>::empty());
    assert(a5.len() == s.len());
}

/// Whatever decodes is well formed and within the codec's bounds.
pub proof fn lemma_dec_page_wf(s: Seq<char>)
    ensures
        dec_page(s) matches Some(p) ==> p.wf() && p.fits(),
{
    match sp_tok(s, 0) {
        None => {},
        Some(idp) => {
            lemma_sp_tok_fits(s, 0);
            match sp_dict(s, idp.1) {
                None => {},
                Some(fp) => {
                    lemma_sp_dict_fits(s, idp.1);
                    match sp_tok(s, fp.1) {
                        None => {},
                        Some(tp) => {
                            lemma_sp_tok_fits(s, fp.1);
                            match sp_tok(s, tp.1) {
                                None => {},
                                Some(cp) => {
                                    lemma_sp_tok_fits(s, tp.1);
                                    match sp_dict(s, cp.1) {
                                        None => {},
                                        Some(chp) => {
                                            lemma_sp_dict_fits(s, cp.1);
                                        },
                                    }
                                },
                            }
                        },
                    }
                },
            }
        },
    }
}

/// A token payload coming out of the parser fits the codec's bounds.
proof fn lemma_sp_tok_fits(s: Seq<char>, i: int)
    ensures
        sp_tok(s, i) matches Some(p) ==> fits_len(p.0.len()),
{
    if 0 <= i <= s.len() {
        crate::codec::lemma_digits_run_bounds(s, i);
        let r = digits_run(s, i);
        if 1 <= r <= 20 && i + r < s.len() && s[i + r] == ':' && crate::codec::digits_val(
            s,
            i,
            i + r,
        ) <= u64::MAX {
            let n = crate::codec::digits_val(s, i, i + r) as int;
            if i + r + 1 + n <= s.len() {
                assert(sp_tok(s, i) == Some(
                    (s.subrange(i + r + 1, i + r + 1 + n), i + r + 1 + n),
                ));
                assert(s.subrange(i + r + 1, i + r + 1 + n).len() == n);
            } else {
                assert(sp_tok(s, i) is None);
            }
        } else {
            assert(sp_tok(s, i) is None);
        }
    } else {
        assert(sp_tok(s, i) is None);
    }
}

/// Pairs coming out of the parser always fit the codec's bounds.
proof fn lemma_sp_pairs_fits(s: Seq<char>, i: int, n: nat)
    ensures
        sp_pairs(s, i, n) matches Some(ps) ==> ps.0.len() == n && forall|t: int|
            0 <= t < ps.0.len() ==> fits_len((#[trigger] ps.0[t]).0.len()) && fits_len(
                ps.0[t].1.len(),
            ),
    decreases n,
{
    if n > 0 {
        match sp_tok(s, i) {
            None => {},
            Some(kp) => {
                lemma_sp_tok_fits(s, i);
                match sp_tok(s, kp.1) {
                    None => {},
                    Some(vp) => {
                        lemma_sp_tok_fits(s, kp.1);
                        lemma_sp_pairs_fits(s, vp.1, (n - 1) as nat);
                        match sp_pairs(s, vp.1, (n - 1) as nat) {
                            None => {},
                            Some(rest) => {
                                let ps = seq![(kp.0, vp.0)] + rest.0;
                                assert(ps[0] == (kp.0, vp.0));
                                assert(forall|t: int|
                                    1 <= t < ps.len() ==> ps[t] == rest.0[t - 1]);
                            },
                        }
                    },
                }
            },
        }
    }
}

proof fn lemma_sp_dict_fits(s: Seq<char>, i: int)
    ensures
        sp_dict(s, i) matches Some(ps) ==> fits_len(ps.0.len()) && unique_keys(ps.0) && forall|
            t: int,
        |
            0 <= t < ps.0.len() ==> fits_len((#[trigger] ps.0[t]).0.len()) && fits_len(
                ps.0[t].1.len(),
            ),
{
    match crate::codec::sp_cnt(s, i) {
        None => {},
        Some(np) => {
            lemma_sp_pairs_fits(s, np.1, np.0);
        },
    }
}

/// A tree node: stable id, metadata fields, title, content address,
/// and the child map from stable ids to current addresses.
#[derive(Debug)]
pub struct Page {
    id: String,
    fields: Dict,
    title: String,
    content: String,
    children: Dict,
}

impl View for Page {
    type V = PageV;

    closed spec fn view(&self) -> PageV {
        PageV {
            id: self.id@,
            fields: self.fields.seqv(),
            title: self.title@,
            content: self.content@,
            children: self.children.seqv(),
        }
    }
}

impl Page {
    pub open spec fn wf(&self) -> bool {
        self@.wf()
    }

    /// A fresh page: a newly drawn stable id, the given title, content
    /// address and fields, and no children.
    pub fn new(title: String, content: String, fields: Dict) -> (r: Page)
        requires
            fields.wf(),
        ensures
            r.wf(),
            r@.title == title@,
            r@.content == content@,
            r@.fields == fields.seqv(),
            r@.children == Seq::<(Seq<char>, Seq<char>)>::empty(),
            r@.id.len() >= 32,
            no_char(r@.id, '\n'),
    {
        let p = Page { id: stamp(), fields, title, content, children: Dict::new() };
        p
    }

    /// The stable identity, invariant across edits.
    pub fn id(&self) -> (r: String)
        ensures
            r@ == self@.id,
    {
        self.id.clone()
    }

    /// Whether two pages are the same page, i.e. carry the same
    /// identity — their contents may differ arbitrarily.
    pub fn same(&self, other: Page) -> (r: bool)
        ensures
            r == (self@.id == other@.id),
    {
        crate::strutil::str_eq(self.id.as_str(), other.id.as_str())
    }

    pub fn title(&self) -> (r: &String)
        ensures
            r@ == self@.title,
    {
        &self.title
    }

    pub fn content(&self) -> (r: &String)
        ensures
            r@ == self@.content,
    {
        &self.content
    }

    pub fn fields(&self) -> (r: &Dict)
        ensures
            r.seqv() == self@.fields,
    {
        &self.fields
    }

    /// Consume the page, handing its field map out.
    pub fn into_fields(self) -> (r: Dict)
        ensures
            r.seqv() == self@.fields,
    {
        self.fields
    }

    pub fn children(&self) -> (r: &Dict)
        ensures
            r.seqv() == self@.children,
    {
        &self.children
    }

    pub fn set_title(&mut self, title: String)
        ensures
            final(self)@ == (PageV { title: title@, ..old(self)@ }),
    {
        self.title = title;
    }

    pub fn set_content(&mut self, content: String)
        ensures
            final(self)@ == (PageV { content: content@, ..old(self)@ }),
    {
        self.content = content;
    }

    pub fn set_fields(&mut self, fields: Dict)
        requires
            fields.wf(),
        ensures
            final(self)@ == (PageV { fields: fields.seqv(), ..old(self)@ }),
    {
        self.fields = fields;
    }

    /// Point the child entry for `id` at a new address (or add it).
    pub fn child_insert(&mut self, id: String, addr: String)
        requires
            old(self).wf(),
        ensures
            final(self).wf(),
            final(self)@ == (PageV {
                children: seq_insert(old(self)@.children, id@, addr@),
                ..old(self)@
            }),
    {
        proof {
            crate::dict::lemma_seq_insert_map(self.children.seqv(), id@, addr@);
        }
        self.children.insert(id, addr);
    }

    /// Drop the child entry for `id`, if any.
    pub fn child_remove(&mut self, id: &str)
        requires
            old(self).wf(),
        ensures
            final(self).wf(),
            final(self)@ == (PageV {
                children: seq_remove(old(self)@.children, id@),
                ..old(self)@
            }),
    {
        proof {
            crate::dict::lemma_seq_remove_map(self.children.seqv(), id@);
        }
        self.children.remove(id);
    }


    /// The page's slug: its title's words joined by hyphens, stripped
    /// to ASCII letters, digits and hyphens, and lower-cased.
    pub fn short(&self) -> (r: String)
        ensures
            r@ == slug_of(self@.title),
    {
        let pieces = split_ws_keep(self.title.as_str());
        let words = crate::strutil::keep_nonempty(pieces);
        let joined = crate::strutil::join(&words, "-");
        proof {
            reveal_strlit("-");
            assert("-"@ =~= seq!['-']);
        }
        let ghost j = joined@;
        let n = joined.as_str().unicode_len();
        let mut out = String::new();
        let mut i: usize = 0;
        while i < n
            invariant
                n == j.len(),
                joined@ == j,
                i <= n,
                out@ == slug_pass(j.subrange(0, i as int)),
            decreases n - i,
        {
            let c = joined.as_str().get_char(i);
            let u = c as u32;
            if (48 <= u && u <= 57) || (65 <= u && u <= 90) || (97 <= u && u <= 122) || c == '-' {
                append_lower(&mut out, c);
            }
            proof {
                let pre = j.subrange(0, i as int + 1);
                assert(pre.drop_last() =~= j.subrange(0, i as int));
                assert(pre.last() == j[i as int]);
                assert(out@ =~= slug_pass(pre));
            }
            i = i + 1;
        }
        proof {
            assert(j.subrange(0, n as int) =~= j);
        }
        out
    }

    /// The canonical serialized record: a pure function of the page's
    /// value, so identical pages always share one address.
    pub fn to_string(&self) -> (r: String)
        ensures
            r@ == enc_page(self@),
            self@.fits(),
    {
        let mut out = String::new();
        tok_write(&mut out, self.id.as_str());
        write_dict(&mut out, &self.fields);
        tok_write(&mut out, self.title.as_str());
        tok_write(&mut out, self.content.as_str());
        write_dict(&mut out, &self.children);
        proof {
            assert(out@ =~= enc_page(self@));
        }
        out
    }

    /// Decode a serialized page; fails with `Corrupt` exactly when the
    /// record is malformed.
    pub fn from_str(s: &str) -> (r: Result<Page, HrdbError>)
        ensures
            match r {
                Ok(p) => p.wf() && dec_page(s@) == Some(p@),
                Err(e) => e == HrdbError::Corrupt && dec_page(s@) is None,
            },
    {
        let n = s.unicode_len();
        let (id, i1) = match parse_tok(s, 0) {
            Some(p) => p,
            None => {
                return Err(HrdbError::Corrupt);
            },
        };
        let (fields, i2) = match parse_dict(s, i1) {
            Some(p) => p,
            None => {
                return Err(HrdbError::Corrupt);
            },
        };
        let (title, i3) = match parse_tok(s, i2) {
            Some(p) => p,
            None => {
                return Err(HrdbError::Corrupt);
            },
        };
        let (content, i4) = match parse_tok(s, i3) {
            Some(p) => p,
            None => {
                return Err(HrdbError::Corrupt);
            },
        };
        let (children, i5) = match parse_dict(s, i4) {
            Some(p) => p,
            None => {
                return Err(HrdbError::Corrupt);
            },
        };
        if i5 != n {
            return Err(HrdbError::Corrupt);
        }
        Ok(Page { id, fields, title, content, children })
    }

    /// Load and decode the page stored at `hash`.
    pub fn from(store: &Store, hash: &str) -> (r: Result<Page, HrdbError>)
        requires
            store.wf(),
        ensures
            match r {
                Ok(p) => p.wf() && page_at(store@, hash@) == Some(p@),
                Err(e) => page_at(store@, hash@) is None && (e == HrdbError::NotFound <==> !store@.contains_key(hash@))
                    && (e == HrdbError::Corrupt <==> store@.contains_key(hash@)),
            },
    {
        proof {
            reveal(crate::page::page_at);
        }
        let text = match read(store, hash) {
            Ok(t) => t,
            Err(e) => {
                return Err(e);
            },
        };
        Page::from_str(text.as_str())
    }
}


/// The whitespace that separates title words: the Unicode White_Space
/// set, as `str::split_whitespace` sees it.
pub open spec fn is_space(c: char) -> bool {
    let u = c as u32;
    ||| (9 <= u && u <= 13)
    ||| u == 32
    ||| u == 133
    ||| u == 160
    ||| u == 5760
    ||| (8192 <= u && u <= 8202)
    ||| u == 8232
    ||| u == 8233
    ||| u == 8239
    ||| u == 8287
    ||| u == 12288
}

/// Split a title at whitespace, keeping empty pieces.
pub open spec fn split_ws_all(s: Seq<char>) -> Seq<Seq<char>>
    decreases s.len(),
{
    if s.len() == 0 {
        seq![Seq::<char>::empty()]
    } else {
        let rest = split_ws_all(s.drop_first());
        if is_space(s[0]) {
            seq![Seq::<char>::empty()] + rest
        } else {
            seq![seq![s[0]] + rest[0]] + rest.drop_first()
        }
    }
}

/// The words of a title: the non-empty whitespace-separated pieces.
pub open spec fn words_of(t: Seq<char>) -> Seq<Seq<char>> {
    crate::strutil::drop_empty(split_ws_all(t))
}

/// The characters a slug keeps: ASCII letters, digits and hyphens.
pub open spec fn slug_keep(c: char) -> bool {
    (48 <= c as u32 <= 57) || (65 <= c as u32 <= 90) || (97 <= c as u32 <= 122) || c == '-'
}

/// ASCII lower-casing; everything but an upper-case letter is kept.
pub open spec fn lower_char(c: char) -> char {
    if c == 'A' {
        'a'
    } else if c == 'B' {
        'b'
    } else if c == 'C' {
        'c'
    } else if c == 'D' {
        'd'
    } else if c == 'E' {
        'e'
    } else if c == 'F' {
        'f'
    } else if c == 'G' {
        'g'
    } else if c == 'H' {
        'h'
    } else if c == 'I' {
        'i'
    } else if c == 'J' {
        'j'
    } else if c == 'K' {
        'k'
    } else if c == 'L' {
        'l'
    } else if c == 'M' {
        'm'
    } else if c == 'N' {
        'n'
    } else if c == 'O' {
        'o'
    } else if c == 'P' {
        'p'
    } else if c == 'Q' {
        'q'
    } else if c == 'R' {
        'r'
    } else if c == 'S' {
        's'
    } else if c == 'T' {
        't'
    } else if c == 'U' {
        'u'
    } else if c == 'V' {
        'v'
    } else if c == 'W' {
        'w'
    } else if c == 'X' {
        'x'
    } else if c == 'Y' {
        'y'
    } else if c == 'Z' {
        'z'
    } else {
        c
    }
}

/// Keep the slug characters and lower-case them, in order.
pub open spec fn slug_pass(q: Seq<char>) -> Seq<char>
    decreases q.len(),
{
    if q.len() == 0 {
        Seq::empty()
    } else {
        let rest = slug_pass(q.drop_last());
        if slug_keep(q.last()) {
            rest.push(lower_char(q.last()))
        } else {
            rest
        }
    }
}

/// The slug a title maps to in the shorthand table: words joined by
/// hyphens, stripped to ASCII letters, digits and hyphens, lower-cased.
pub open spec fn slug_of(t: Seq<char>) -> Seq<char> {
    slug_pass(crate::strutil::join_spec(words_of(t), seq!['-']))
}

/// Split at whitespace, keeping empty pieces.
fn split_ws_keep(s: &str) -> (r: Vec<String>)
    ensures
        crate::strutil::views_of(r@) == split_ws_all(s@),
{
    let n = s.unicode_len();
    let mut out: Vec<String> = Vec::new();
    let mut cur: String = String::new();
    let mut i: usize = 0;
    proof {
        lemma_split_ws_all_len(s@);
        assert(s@.skip(0) =~= s@);
        assert(split_ws_all(s@) =~~= seq![split_ws_all(s@)[0]] + split_ws_all(s@).drop_first());
    }
    while i < n
        invariant
            n == s@.len(),
            i <= n,
            split_ws_all(s@.skip(i as int)).len() >= 1,
            split_ws_all(s@) == crate::strutil::views_of(out@) + seq![
                cur@ + split_ws_all(s@.skip(i as int))[0]] + split_ws_all(
                s@.skip(i as int),
            ).drop_first(),
        decreases n - i,
    {
        let ghost pre = s@.skip(i as int);
        let c = s.get_char(i);
        proof {
            assert(pre[0] == s@[i as int]);
            assert(pre.drop_first() =~= s@.skip(i as int + 1));
            lemma_split_ws_all_len(s@.skip(i as int + 1));
        }
        let u = c as u32;
        if (9 <= u && u <= 13) || u == 32 || u == 133 || u == 160 || u == 5760 || (8192 <= u && u
            <= 8202) || u == 8232 || u == 8233 || u == 8239 || u == 8287 || u == 12288 {
            out.push(cur);
            cur = String::new();
            proof {
                let rest = split_ws_all(s@.skip(i as int + 1));
                assert(split_ws_all(pre) == seq![Seq::<char>::empty()] + rest);
                assert(split_ws_all(pre)[0] =~= Seq::<char>::empty());
                assert((seq![Seq::<char>::empty()] + rest).drop_first() =~= rest);
                assert(split_ws_all(s@) =~~= crate::strutil::views_of(out@) + seq![cur@ + rest[0]]
                    + rest.drop_first());
            }
        } else {
            let piece = s.substring_char(i, i + 1);
            cur.append(piece);
            proof {
                let rest = split_ws_all(s@.skip(i as int + 1));
                assert(piece@ =~= seq![s@[i as int]]);
                assert(split_ws_all(pre) == seq![seq![pre[0]] + rest[0]] + rest.drop_first());
                assert(split_ws_all(pre)[0] =~= seq![s@[i as int]] + rest[0]);
                assert((seq![seq![pre[0]] + rest[0]] + rest.drop_first()).drop_first()
                    =~= rest.drop_first());
                assert(split_ws_all(s@) =~~= crate::strutil::views_of(out@) + seq![cur@ + rest[0]]
                    + rest.drop_first());
            }
        }
        i = i + 1;
    }
    proof {
        assert(s@.skip(n as int) =~= Seq::<char>::empty());
        assert(split_ws_all(Seq::<char>::empty()) =~~= seq![Seq::<char>::empty()]);
    }
    out.push(cur);
    proof {
        assert(crate::strutil::views_of(out@) =~~= split_ws_all(s@));
    }
    out
}

proof fn lemma_split_ws_all_len(s: Seq<char>)
    ensures
        split_ws_all(s).len() >= 1,
    decreases s.len(),
{
    if s.len() != 0 {
        lemma_split_ws_all_len(s.drop_first());
    }
}

/// Append the lower-cased form of a slug character.
fn append_lower(out: &mut String, c: char)
    requires
        slug_keep(c),
    ensures
        final(out)@ == old(out)@ + seq![lower_char(c)],
{
    let table = "0123456789abcdefghijklmnopqrstuvwxyz-";
    proof {
        reveal_strlit("0123456789abcdefghijklmnopqrstuvwxyz-");
        assert(table.is_ascii());
    }
    let u = c as u32;
    let idx: usize = if 48 <= u && u <= 57 {
        (u - 48) as usize
    } else if 65 <= u && u <= 90 {
        (u - 65 + 10) as usize
    } else if 97 <= u && u <= 122 {
        (u - 97 + 10) as usize
    } else {
        36
    };
    out.append(table.substring_ascii(idx, idx + 1));
    proof {
        assert(table@.subrange(idx as int, idx as int + 1) =~= seq![table@[idx as int]]);
        assert(table@[idx as int] == lower_char(c));
    }
}

} // verus!
