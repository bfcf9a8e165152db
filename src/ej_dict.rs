//! The dictionary store: bundled definitions merged with user entries, ranked
//! so that an exact match comes first and then higher levels, at most three
//! rows per lookup.
use rusqlite::Connection;
use vstd::prelude::*;
use vstd::string::*;

verus! {

/// Added to the rank of a row whose word equals the query, which puts it above
/// every row of any level that does not.
pub const EXACT_BONUS: u64 = 0x1_0000_0000;

/// The most rows that a lookup returns.
pub const MAX_RESULTS: usize = 3;

/// A row of either source: the bundled `items` table or the user table.
pub struct EntryView {
    pub word: Seq<char>,
    pub mean: Option<Seq<char>>,
    pub level: u32,
}

/// A dictionary row as read from one source.
#[derive(Debug, Clone, PartialEq, Eq)]
pub struct DictEntry {
    pub word: String,
    /// `None` where the database holds no definition.
    pub mean: Option<String>,
    pub level: u32,
}

impl View for DictEntry {
    type V = EntryView;

    open spec fn view(&self) -> EntryView {
        EntryView { word: self.word@, mean: opt_view(self.mean), level: self.level }
    }
}

/// A merged lookup result: `mean` from the bundled source, `user_mean` from
/// the user table, each empty where that source has no row for the word.
pub struct ItemView {
    pub word: Seq<char>,
    pub mean: Seq<char>,
    pub level: u32,
    pub user_mean: Seq<char>,
}

/// One merged row of a lookup; as an argument of `upsert_word`, `user_mean`
/// is the user's definition.
#[derive(Debug, Default, Clone, PartialEq, Eq)]
pub struct DictionaryItem {
    pub word: String,
    pub mean: String,
    pub level: u32,
    pub user_mean: String,
}

impl View for DictionaryItem {
    type V = ItemView;

    open spec fn view(&self) -> ItemView {
        ItemView { word: self.word@, mean: self.mean@, level: self.level, user_mean: self.user_mean@ }
    }
}

/// A text that may be missing, as a sequence of characters.
pub open spec fn opt_view(o: Option<String>) -> Option<Seq<char>> {
    match o {
        Some(t) => Some(t@),
        None => None,
    }
}

/// The character of a decimal digit.
pub open spec fn digit_char(d: int) -> char {
    seq!['0', '1', '2', '3', '4', '5', '6', '7', '8', '9'][d]
}

/// The decimal digits of `n`, most significant first, with no leading zero.
pub open spec fn decimal_digits(n: nat) -> Seq<char>
    decreases n,
{
    if n < 10 {
        seq![digit_char(n as int)]
    } else {
        decimal_digits(n / 10).push(digit_char((n % 10) as int))
    }
}

/// Relies on u32's `Display` through `to_string`: the number in decimal.
#[verifier::external_body]
fn level_text(n: u32) -> (r: String)
    ensures
        r@ == decimal_digits(n as nat),
{
    n.to_string()
}

impl DictionaryItem {
    /// The item as one line of text.
    pub fn to_display_string(&self) -> (r: String)
        ensures
            r@ == "word: "@ + self.word@ + ", mean: "@ + self.mean@ + ", level: "@ + decimal_digits(
                self.level as nat,
            ) + ", user_mean: "@ + self.user_mean@,
    {
        let mut s = "word: ".to_owned();
        s.append(self.word.as_str());
        s.append(", mean: ");
        s.append(self.mean.as_str());
        s.append(", level: ");
        let level = level_text(self.level);
        s.append(level.as_str());
        s.append(", user_mean: ");
        s.append(self.user_mean.as_str());
        s
    }
}

/// A row that matched the query, tagged with its source.
pub struct CandView {
    pub word: Seq<char>,
    pub mean: Option<Seq<char>>,
    pub level: u32,
    pub user: bool,
}

struct Candidate {
    word: String,
    mean: Option<String>,
    level: u32,
    user: bool,
}

impl View for Candidate {
    type V = CandView;

    closed spec fn view(&self) -> CandView {
        CandView { word: self.word@, mean: opt_view(self.mean), level: self.level, user: self.user }
    }
}

/// The views of a sequence of entries.
pub open spec fn entries_view(v: Seq<DictEntry>) -> Seq<EntryView> {
    v.map_values(|e: DictEntry| e@)
}

/// The views of a sequence of merged items.
pub open spec fn items_view(v: Seq<DictionaryItem>) -> Seq<ItemView> {
    v.map_values(|e: DictionaryItem| e@)
}

spec fn cands_view(v: Seq<Candidate>) -> Seq<CandView> {
    v.map_values(|c: Candidate| c@)
}

/// `q` occurs in `w` as a run of consecutive characters.
pub open spec fn contains_seq(w: Seq<char>, q: Seq<char>) -> bool {
    exists|i: int| 0 <= i && i + q.len() <= w.len() && #[trigger] w.subrange(i, i + q.len()) == q
}

/// The rows of `es` whose word contains `q`, in order, tagged with `user`.
pub open spec fn tagged(es: Seq<EntryView>, q: Seq<char>, user: bool) -> Seq<CandView>
    decreases es.len(),
{
    if es.len() == 0 {
        seq![]
    } else {
        let rest = tagged(es.drop_last(), q, user);
        let e = es.last();
        if contains_seq(e.word, q) {
            rest.push(CandView { word: e.word, mean: e.mean, level: e.level, user })
        } else {
            rest
        }
    }
}

/// The matching rows of both sources, bundled ones first.
pub open spec fn candidates(q: Seq<char>, bundled: Seq<EntryView>, user: Seq<EntryView>) -> Seq<
    CandView,
> {
    tagged(bundled, q, false) + tagged(user, q, true)
}

/// The highest level among the rows for `w`, or -1 where there is none.
pub open spec fn max_level(cs: Seq<CandView>, w: Seq<char>) -> int
    decreases cs.len(),
{
    if cs.len() == 0 {
        -1
    } else {
        let m = max_level(cs.drop_last(), w);
        let c = cs.last();
        if c.word == w && c.level > m {
            c.level as int
        } else {
            m
        }
    }
}

/// `a` comes before `b` in the order of their characters' code points, a
/// proper prefix first: the order in which SQLite's default collation
/// compares UTF-8 text.
pub open spec fn seq_less(a: Seq<char>, b: Seq<char>) -> bool
    decreases a.len(),
{
    if a.len() == 0 {
        b.len() > 0
    } else if b.len() == 0 {
        false
    } else if a[0] != b[0] {
        (a[0] as u32) < (b[0] as u32)
    } else {
        seq_less(a.drop_first(), b.drop_first())
    }
}

/// The greatest definition present among the rows for `w` from the given
/// source, or `None` where none of them holds one.
pub open spec fn max_mean(cs: Seq<CandView>, w: Seq<char>, user: bool) -> Option<Seq<char>>
    decreases cs.len(),
{
    if cs.len() == 0 {
        None
    } else {
        let prev = max_mean(cs.drop_last(), w, user);
        let c = cs.last();
        if c.word == w && c.user == user && c.mean is Some {
            match prev {
                Some(p) => if seq_less(p, c.mean->0) {
                    c.mean
                } else {
                    prev
                },
                None => c.mean,
            }
        } else {
            prev
        }
    }
}

/// The extra rank of a word that equals the query.
pub open spec fn exact_bonus(w: Seq<char>, q: Seq<char>) -> int {
    if w == q {
        EXACT_BONUS as int
    } else {
        0
    }
}

/// The rank of one row for query `q`.
pub open spec fn row_key(c: CandView, q: Seq<char>) -> int {
    c.level + exact_bonus(c.word, q)
}

/// The rank of a merged word: that of its best row.
pub open spec fn word_key(cs: Seq<CandView>, w: Seq<char>, q: Seq<char>) -> int {
    max_level(cs, w) + exact_bonus(w, q)
}

/// A definition that may be missing, read as empty text when it is.
pub open spec fn mean_or_empty(m: Option<Seq<char>>) -> Seq<char> {
    match m {
        Some(s) => s,
        None => seq![],
    }
}

/// All rows for `w` collapsed into one: the highest level, and the greatest
/// definition present in each source (empty where there is none).
pub open spec fn merged_item(cs: Seq<CandView>, w: Seq<char>) -> ItemView {
    ItemView {
        word: w,
        mean: mean_or_empty(max_mean(cs, w, false)),
        level: max_level(cs, w) as u32,
        user_mean: mean_or_empty(max_mean(cs, w, true)),
    }
}

/// `r` is a ranked merge of the rows `cs` for query `q`: at most three
/// distinct words of `cs`, each merged, in non-increasing rank, and every word
/// left out ranks no higher than the last one kept. Among equal ranks this
/// allows any order; `merge_results` keeps the word whose best row comes first,
/// bundled rows before user rows, each in the order read.
pub open spec fn is_ranked_merge(r: Seq<ItemView>, cs: Seq<CandView>, q: Seq<char>) -> bool {
    &&& r.len() <= MAX_RESULTS
    &&& forall|i: int, j: int| 0 <= i < j < r.len() ==> r[i].word != r[j].word
    &&& forall|i: int|
        0 <= i < r.len() ==> max_level(cs, #[trigger] r[i].word) >= 0 && r[i] == merged_item(
            cs,
            r[i].word,
        )
    &&& forall|i: int|
        0 <= i && i + 1 < r.len() ==> word_key(cs, #[trigger] r[i].word, q) >= word_key(
            cs,
            r[i + 1].word,
            q,
        )
    &&& forall|k: int|
        0 <= k < cs.len() && (forall|i: int| 0 <= i < r.len() ==> r[i].word != #[trigger] cs[k].word)
            ==> r.len() == MAX_RESULTS && row_key(cs[k], q) <= word_key(cs, r[2].word, q)
}

proof fn lemma_max_level(cs: Seq<CandView>, w: Seq<char>)
    ensures
        -1 <= max_level(cs, w) <= u32::MAX,
        forall|k: int| 0 <= k < cs.len() && #[trigger] cs[k].word == w ==> cs[k].level <= max_level(cs, w),
        max_level(cs, w) >= 0 ==> exists|k: int|
            0 <= k < cs.len() && #[trigger] cs[k].word == w && cs[k].level == max_level(cs, w),
        (exists|k: int| 0 <= k < cs.len() && #[trigger] cs[k].word == w) ==> max_level(cs, w) >= 0,
    decreases cs.len(),
{
    if cs.len() > 0 {
        let p = cs.drop_last();
        lemma_max_level(p, w);
        assert forall|k: int| 0 <= k < cs.len() && #[trigger] cs[k].word == w implies cs[k].level
            <= max_level(cs, w) by {
            if k < p.len() {
                assert(p[k] == cs[k]);
            }
        }
        if max_level(cs, w) >= 0 {
            if max_level(cs, w) == max_level(p, w) {
                let k0 = choose|k: int| 0 <= k < p.len() && #[trigger] p[k].word == w && p[k].level == max_level(p, w);
                assert(cs[k0] == p[k0]);
            } else {
                assert(cs[cs.len() - 1] == cs.last());
            }
        }
        if exists|k: int| 0 <= k < cs.len() && #[trigger] cs[k].word == w {
            let k0 = choose|k: int| 0 <= k < cs.len() && #[trigger] cs[k].word == w;
            if k0 < p.len() {
                assert(p[k0] == cs[k0]);
            }
        }
    }
}

proof fn lemma_tagged_keeps(es: Seq<EntryView>, q: Seq<char>, user: bool, i: int)
    requires
        0 <= i < es.len(),
        contains_seq(es[i].word, q),
    ensures
        exists|k: int| 0 <= k < tagged(es, q, user).len() && #[trigger] tagged(es, q, user)[k].word == es[i].word,
    decreases es.len(),
{
    let p = es.drop_last();
    let t = tagged(es, q, user);
    if i < p.len() {
        assert(p[i] == es[i]);
        lemma_tagged_keeps(p, q, user, i);
        let k = choose|k: int| 0 <= k < tagged(p, q, user).len() && #[trigger] tagged(p, q, user)[k].word == p[i].word;
        assert(t[k] == tagged(p, q, user)[k]);
    } else {
        assert(es.last() == es[i]);
        assert(t[t.len() - 1].word == es[i].word);
    }
}

/// Where the bundled source holds a row whose word is exactly the query, a
/// ranked merge puts that word first, whatever the levels of the others.
pub proof fn lemma_exact_match_first(
    q: Seq<char>,
    bundled: Seq<EntryView>,
    user: Seq<EntryView>,
    r: Seq<ItemView>,
)
    requires
        is_ranked_merge(r, candidates(q, bundled, user), q),
        exists|i: int| 0 <= i < bundled.len() && #[trigger] bundled[i].word == q,
    ensures
        r.len() > 0,
        r[0].word == q,
{
    let cs = candidates(q, bundled, user);
    let i = choose|i: int| 0 <= i < bundled.len() && #[trigger] bundled[i].word == q;
    assert(q.subrange(0, 0int + q.len()) =~= q);
    assert(bundled[i].word.subrange(0, 0int + q.len()) == q);
    assert(contains_seq(bundled[i].word, q));
    lemma_tagged_keeps(bundled, q, false, i);
    let tb = tagged(bundled, q, false);
    let k = choose|k: int| 0 <= k < tb.len() && #[trigger] tb[k].word == bundled[i].word;
    assert(cs[k] == tb[k]);
    lemma_max_level(cs, q);
    if forall|j: int| 0 <= j < r.len() ==> r[j].word != #[trigger] cs[k].word {
        assert(r.len() == MAX_RESULTS);
        assert(word_key(cs, r[0].word, q) >= word_key(cs, r[1].word, q));
        assert(word_key(cs, r[1].word, q) >= word_key(cs, r[2].word, q));
    } else {
        let j = choose|j: int| 0 <= j < r.len() && r[j].word == #[trigger] cs[k].word;
        if j >= 1 {
            assert(word_key(cs, r[0].word, q) >= word_key(cs, r[1].word, q));
        }
        if j >= 2 {
            assert(word_key(cs, r[1].word, q) >= word_key(cs, r[2].word, q));
        }
    }
    assert(word_key(cs, r[0].word, q) >= EXACT_BONUS);
    lemma_max_level(cs, r[0].word);
}

proof fn lemma_max_mean_origin(cs: Seq<CandView>, w: Seq<char>, user: bool)
    ensures
        max_mean(cs, w, user) is Some ==> exists|k: int|
            0 <= k < cs.len() && #[trigger] cs[k].user == user && cs[k].mean == max_mean(cs, w, user),
    decreases cs.len(),
{
    if cs.len() > 0 {
        let p = cs.drop_last();
        lemma_max_mean_origin(p, w, user);
        if max_mean(cs, w, user) is Some {
            if max_mean(cs, w, user) == max_mean(p, w, user) {
                let k = choose|k: int| 0 <= k < p.len() && #[trigger] p[k].user == user && p[k].mean == max_mean(p, w, user);
                assert(cs[k] == p[k]);
            } else {
                assert(cs[cs.len() - 1] == cs.last());
            }
        }
    }
}

proof fn lemma_tagged_origin(es: Seq<EntryView>, q: Seq<char>, user: bool)
    ensures
        forall|k: int|
            0 <= k < tagged(es, q, user).len() ==> (#[trigger] tagged(es, q, user)[k]).user == user
                && exists|i: int| 0 <= i < es.len() && es[i].mean == tagged(es, q, user)[k].mean,
    decreases es.len(),
{
    if es.len() > 0 {
        let p = es.drop_last();
        lemma_tagged_origin(p, q, user);
        let t = tagged(es, q, user);
        assert forall|k: int| 0 <= k < t.len() implies (#[trigger] t[k]).user == user
            && exists|i: int| 0 <= i < es.len() && es[i].mean == t[k].mean by {
            if k < tagged(p, q, user).len() {
                assert(t[k] == tagged(p, q, user)[k]);
                let i = choose|i: int| 0 <= i < p.len() && p[i].mean == tagged(p, q, user)[k].mean;
                assert(es[i] == p[i]);
            } else {
                assert(es[es.len() - 1] == es.last());
            }
        }
    }
}

/// A merged row's user definition comes from a user row: where no user entry
/// holds the non-empty definition `m`, no merged row carries `m` as its user
/// definition. So once a user entry is gone, its definition no longer shows.
pub proof fn lemma_user_mean_from_user_rows(
    q: Seq<char>,
    bundled: Seq<EntryView>,
    user: Seq<EntryView>,
    r: Seq<ItemView>,
    m: Seq<char>,
)
    requires
        is_ranked_merge(r, candidates(q, bundled, user), q),
        m.len() > 0,
        forall|i: int| 0 <= i < user.len() ==> #[trigger] user[i].mean != Some(m),
    ensures
        forall|j: int| 0 <= j < r.len() ==> #[trigger] r[j].user_mean != m,
{
    let cs = candidates(q, bundled, user);
    let tb = tagged(bundled, q, false);
    let tu = tagged(user, q, true);
    lemma_tagged_origin(bundled, q, false);
    lemma_tagged_origin(user, q, true);
    assert forall|j: int| 0 <= j < r.len() implies #[trigger] r[j].user_mean != m by {
        let w = r[j].word;
        lemma_max_mean_origin(cs, w, true);
        if max_mean(cs, w, true) is Some {
            let k = choose|k: int| 0 <= k < cs.len() && #[trigger] cs[k].user == true && cs[k].mean == max_mean(cs, w, true);
            if k < tb.len() {
                assert(cs[k] == tb[k]);
            } else {
                assert(cs[k] == tu[k - tb.len()]);
                assert(tu[k - tb.len()].user == true);
                let i = choose|i: int| 0 <= i < user.len() && user[i].mean == tu[k - tb.len()].mean;
                assert(user[i].mean != Some(m));
            }
        } else {
            assert(r[j].user_mean == Seq::<char>::empty());
        }
    }
}

/// Relies on str::contains: whether `needle` occurs in `hay` as a substring.
#[verifier::external_body]
fn str_contains(hay: &str, needle: &str) -> (r: bool)
    ensures
        r == contains_seq(hay@, needle@),
{
    hay.contains(needle)
}

fn collect_candidates(q: &String, es: &Vec<DictEntry>, user: bool, out: &mut Vec<Candidate>)
    ensures
        cands_view(final(out)@) == cands_view(old(out)@) + tagged(entries_view(es@), q@, user),
{
    let ghost ev = entries_view(es@);
    let ghost start = cands_view(out@);
    for i in 0..es.len()
        invariant
            ev == entries_view(es@),
            cands_view(out@) == start + tagged(ev.take(i as int), q@, user),
    {
        assert(ev.take(i + 1).drop_last() == ev.take(i as int));
        assert(ev.take(i + 1).last() == es@[i as int]@);
        let e = &es[i];
        if str_contains(e.word.as_str(), q.as_str()) {
            let mean = match &e.mean {
                Some(t) => Some(t.clone()),
                None => None,
            };
            let c = Candidate { word: e.word.clone(), mean, level: e.level, user };
            let ghost before = out@;
            out.push(c);
            assert(cands_view(out@) =~= cands_view(before).push(c@));
            assert(cands_view(out@) =~= start + tagged(ev.take(i + 1), q@, user));
        } else {
            assert(cands_view(out@) =~= start + tagged(ev.take(i + 1), q@, user));
        }
    }
    assert(ev.take(es.len() as int) == ev);
}

/// Whether `a` comes before `b`.
fn str_less(a: &str, b: &str) -> (r: bool)
    ensures
        r == seq_less(a@, b@),
{
    let na = a.unicode_len();
    let nb = b.unicode_len();
    let mut i: usize = 0;
    assert(a@.skip(0) =~= a@);
    assert(b@.skip(0) =~= b@);
    while i < na && i < nb
        invariant
            i <= na == a@.len(),
            i <= nb == b@.len(),
            seq_less(a@, b@) == seq_less(a@.skip(i as int), b@.skip(i as int)),
        decreases na - i,
    {
        let ca = a.get_char(i);
        let cb = b.get_char(i);
        assert(a@.skip(i as int)[0] == ca);
        assert(b@.skip(i as int)[0] == cb);
        if ca != cb {
            return (ca as u32) < (cb as u32);
        }
        assert(a@.skip(i as int).drop_first() =~= a@.skip(i + 1));
        assert(b@.skip(i as int).drop_first() =~= b@.skip(i + 1));
        i = i + 1;
    }
    i < nb
}

/// Folds one row into the greatest definition found so far for `w` from the
/// given source.
fn fold_mean(c: &Candidate, w: &String, user: bool, found: &mut bool, mean: &mut String)
    ensures
        ({
            let prev = if *old(found) { Some(old(mean)@) } else { None::<Seq<char>> };
            let next = if *final(found) { Some(final(mean)@) } else { None::<Seq<char>> };
            let cv = c@;
            &&& next == (if cv.word == w@ && cv.user == user && cv.mean is Some {
                match prev {
                    Some(p) => if seq_less(p, cv.mean->0) {
                        cv.mean
                    } else {
                        prev
                    },
                    None => cv.mean,
                }
            } else {
                prev
            })
            &&& !*final(found) ==> final(mean)@ == old(mean)@
        }),
{
    if c.word == *w && c.user == user {
        match &c.mean {
            Some(m) => {
                if !*found || str_less(mean.as_str(), m.as_str()) {
                    *mean = m.clone();
                    *found = true;
                }
            },
            None => {},
        }
    }
}

/// Merges every row for `w` into one item.
fn merge_word(cs: &Vec<Candidate>, w: &String) -> (r: DictionaryItem)
    requires
        max_level(cands_view(cs@), w@) >= 0,
    ensures
        r@ == merged_item(cands_view(cs@), w@),
{
    let ghost cv = cands_view(cs@);
    let mut lvl: i64 = -1;
    let mut mean = String::new();
    let mut mean_found = false;
    let mut user_mean = String::new();
    let mut user_found = false;
    for k in 0..cs.len()
        invariant
            cv == cands_view(cs@),
            lvl == max_level(cv.take(k as int), w@),
            mean_found ==> max_mean(cv.take(k as int), w@, false) == Some(mean@),
            !mean_found ==> max_mean(cv.take(k as int), w@, false) is None,
            !mean_found ==> mean@ == Seq::<char>::empty(),
            !user_found ==> user_mean@ == Seq::<char>::empty(),
            user_found ==> max_mean(cv.take(k as int), w@, true) == Some(user_mean@),
            !user_found ==> max_mean(cv.take(k as int), w@, true) is None,
    {
        proof {
            lemma_max_level(cv.take(k as int), w@);
        }
        assert(cv.take(k + 1).drop_last() == cv.take(k as int));
        assert(cv.take(k + 1).last() == cs@[k as int]@);
        let c = &cs[k];
        if c.word == *w {
            if (c.level as i64) > lvl {
                lvl = c.level as i64;
            }
        }
        fold_mean(c, w, false, &mut mean_found, &mut mean);
        fold_mean(c, w, true, &mut user_found, &mut user_mean);
    }
    assert(cv.take(cs.len() as int) == cv);
    proof {
        lemma_max_level(cv, w@);
    }
    DictionaryItem { word: w.clone(), mean, level: lvl as u32, user_mean }
}

fn list_contains(list: &Vec<String>, w: &String) -> (r: bool)
    ensures
        r == list.deep_view().contains(w@),
{
    for i in 0..list.len()
        invariant
            forall|j: int| 0 <= j < i ==> list.deep_view()[j] != w@,
    {
        assert(list.deep_view()[i as int] == list@[i as int]@);
        if list[i] == *w {
            assert(list.deep_view()[i as int] == w@);
            return true;
        }
    }
    false
}

/// The rank of a row for the query, as a machine integer.
fn rank_of(c: &Candidate, q: &String) -> (r: u64)
    ensures
        r == row_key(c@, q@),
{
    if c.word == *q {
        c.level as u64 + EXACT_BONUS
    } else {
        c.level as u64
    }
}

/// The best-ranked row whose word is not yet chosen, with its rank.
fn pick_next(cs: &Vec<Candidate>, q: &String, chosen: &Vec<String>) -> (r: Option<(usize, u64)>)
    ensures
        match r {
            Some((b, key)) => {
                &&& b < cs.len()
                &&& !chosen.deep_view().contains(cs@[b as int]@.word)
                &&& key == row_key(cs@[b as int]@, q@)
                &&& forall|k: int|
                    0 <= k < cs.len() && !chosen.deep_view().contains(#[trigger] cs@[k]@.word)
                        ==> row_key(cs@[k]@, q@) <= key
            },
            None => forall|k: int| 0 <= k < cs.len() ==> chosen.deep_view().contains(#[trigger] cs@[k]@.word),
        },
{
    let mut best: Option<(usize, u64)> = None;
    for k in 0..cs.len()
        invariant
            match best {
                Some((b, key)) => {
                    &&& b < k
                    &&& !chosen.deep_view().contains(cs@[b as int]@.word)
                    &&& key == row_key(cs@[b as int]@, q@)
                    &&& forall|j: int|
                        0 <= j < k && !chosen.deep_view().contains(#[trigger] cs@[j]@.word)
                            ==> row_key(cs@[j]@, q@) <= key
                },
                None => forall|j: int| 0 <= j < k ==> chosen.deep_view().contains(#[trigger] cs@[j]@.word),
            },
    {
        if !list_contains(chosen, &cs[k].word) {
            let key = rank_of(&cs[k], q);
            match best {
                Some((_, bk)) => {
                    if key > bk {
                        best = Some((k, key));
                    }
                },
                None => {
                    best = Some((k, key));
                },
            }
        }
    }
    best
}

/// Merges the bundled and user rows whose word contains `query` into at most
/// three results: one per word, an exact match of the query first, then by
/// level, highest first.
pub fn merge_results(query: &String, bundled: &Vec<DictEntry>, user: &Vec<DictEntry>) -> (r: Vec<
    DictionaryItem,
>)
    ensures
        is_ranked_merge(items_view(r@), candidates(query@, entries_view(bundled@), entries_view(user@)), query@),
{
    let mut cs: Vec<Candidate> = Vec::new();
    collect_candidates(query, bundled, false, &mut cs);
    collect_candidates(query, user, true, &mut cs);
    let ghost cv = cands_view(cs@);
    assert(cv =~= candidates(query@, entries_view(bundled@), entries_view(user@)));
    let ghost q = query@;
    let mut chosen: Vec<String> = Vec::new();
    let mut keys: Vec<u64> = Vec::new();
    let mut done = false;
    while !done && chosen.len() < MAX_RESULTS
        invariant
            cv == cands_view(cs@),
            q == query@,
            chosen.len() == keys.len() <= MAX_RESULTS,
            forall|i: int, j: int| 0 <= i < j < chosen.len() ==> chosen.deep_view()[i] != chosen.deep_view()[j],
            forall|t: int| 0 <= t < chosen.len() ==> max_level(cv, #[trigger] chosen.deep_view()[t]) >= 0,
            forall|t: int| 0 <= t < chosen.len() ==> keys@[t] == word_key(cv, #[trigger] chosen.deep_view()[t], q),
            forall|t: int| 0 <= t && t + 1 < chosen.len() ==> #[trigger] keys@[t] >= keys@[t + 1],
            chosen.len() > 0 ==> forall|k: int|
                0 <= k < cv.len() && !chosen.deep_view().contains(#[trigger] cv[k].word)
                    ==> row_key(cv[k], q) <= keys@[chosen.len() - 1],
            done ==> forall|k: int| 0 <= k < cv.len() ==> chosen.deep_view().contains(#[trigger] cv[k].word),
        decreases 2 * (MAX_RESULTS - chosen.len()) + (if done { 0int } else { 1int }),
    {
        assert(forall|k: int| 0 <= k < cs.len() ==> #[trigger] cs@[k]@ == cv[k]);
        match pick_next(&cs, query, &chosen) {
            Some((b, key)) => {
                let ghost w = cv[b as int].word;
                proof {
                    lemma_max_level(cv, w);
                    let k0 = choose|k: int| 0 <= k < cv.len() && #[trigger] cv[k].word == w && cv[k].level == max_level(cv, w);
                    assert(cs@[k0]@ == cv[k0]);
                    assert(row_key(cv[k0], q) <= key);
                    assert(word_key(cv, w, q) == key);
                }
                let ghost old_chosen = chosen.deep_view();
                chosen.push(cs[b].word.clone());
                keys.push(key);
                assert(chosen.deep_view() =~= old_chosen.push(w));
                assert forall|k: int|
                    0 <= k < cv.len() && !chosen.deep_view().contains(#[trigger] cv[k].word)
                        implies row_key(cv[k], q) <= key by {
                    if !old_chosen.contains(cv[k].word) {
                        assert(cs@[k]@ == cv[k]);
                    } else {
                        let i = choose|i: int| 0 <= i < old_chosen.len() && old_chosen[i] == cv[k].word;
                        assert(chosen.deep_view()[i] == cv[k].word);
                    }
                }
                assert forall|t: int| 0 <= t && t + 1 < chosen.len() implies #[trigger] keys@[t] >= keys@[t + 1] by {
                    if t + 1 == chosen.len() - 1 {
                        assert(!old_chosen.contains(cv[b as int].word));
                    }
                }
                assert forall|i: int, j: int| 0 <= i < j < chosen.len() implies chosen.deep_view()[i]
                    != chosen.deep_view()[j] by {
                    if j == chosen.len() - 1 {
                        assert(old_chosen[i] == chosen.deep_view()[i]);
                    }
                }
            },
            None => {
                done = true;
            },
        }
    }
    let mut r: Vec<DictionaryItem> = Vec::new();
    for t in 0..chosen.len()
        invariant
            cv == cands_view(cs@),
            r.len() == t,
            forall|i: int| 0 <= i < t ==> #[trigger] r@[i]@ == merged_item(cv, chosen.deep_view()[i]),
            forall|t: int| 0 <= t < chosen.len() ==> max_level(cv, #[trigger] chosen.deep_view()[t]) >= 0,
    {
        assert(chosen@[t as int]@ == chosen.deep_view()[t as int]);
        let item = merge_word(&cs, &chosen[t]);
        r.push(item);
    }
    let ghost rv = items_view(r@);
    assert forall|i: int| 0 <= i < rv.len() implies #[trigger] rv[i].word == chosen.deep_view()[i] by {
        assert(rv[i] == r@[i]@);
    }
    assert forall|k: int|
        0 <= k < cv.len() && (forall|i: int| 0 <= i < rv.len() ==> rv[i].word != #[trigger] cv[k].word)
            implies rv.len() == MAX_RESULTS && row_key(cv[k], q) <= word_key(cv, rv[2].word, q) by {
        if done || chosen.len() < MAX_RESULTS || chosen.deep_view().contains(cv[k].word) {
            let i = choose|i: int| 0 <= i < chosen.len() && chosen.deep_view()[i] == cv[k].word;
            assert(rv[i].word == cv[k].word);
        }
    }
    r
}

/// The database file opened when no path is given.
pub const DEFAULT_DB_PATH: &'static str = "./db/ejdict.sqlite3";

const CREATE_USER_TABLE_SQL: &'static str = "CREATE TABLE IF NOT EXISTS user (id INTEGER PRIMARY KEY AUTOINCREMENT, word TEXT UNIQUE, mean TEXT NOT NULL, level INTEGER NOT NULL)";

const UPSERT_SQL: &'static str = "INSERT INTO user (word, mean, level) VALUES (?1, ?2, ?3) ON CONFLICT(word) DO UPDATE SET mean = excluded.mean, level = excluded.level";

const DELETE_SQL: &'static str = "DELETE FROM user WHERE word = ?1 COLLATE NOCASE";

const BUNDLED_MATCH_SQL: &'static str = "SELECT word, mean, level FROM items WHERE instr(word, ?1) > 0";

const USER_MATCH_SQL: &'static str = "SELECT word, mean, level FROM user WHERE instr(word, ?1) > 0 ORDER BY id";

const USER_LIST_SQL: &'static str = "SELECT word, mean, level FROM user ORDER BY id";

#[verifier::external_type_specification]
#[verifier::external_body]
pub struct ExConnection(rusqlite::Connection);

#[verifier::external_type_specification]
#[verifier::external_body]
pub struct ExSqlError(rusqlite::Error);

/// What can go wrong with the store.
#[derive(Debug, Clone, Copy, PartialEq, Eq, Structural)]
pub enum DictError {
    /// The database file could not be opened or created, or the user table
    /// could not be made.
    StoreOpenError,
    /// One lookup, upsert or delete failed in the database.
    QueryError,
}

/// A value bound to a `?n` placeholder of a statement.
pub enum SqlParam {
    Text(String),
    Int(i64),
}

/// One result row as read: the first three columns, each `None` where the
/// column is NULL or not of the expected type.
pub type RawRow = (Option<String>, Option<String>, Option<i64>);

/// Relies on rusqlite::Connection::open: opens, or creates, the database file
/// at `path`.
#[verifier::external_body]
fn connection_open(path: &str) -> (r: Result<Connection, rusqlite::Error>) {
    Connection::open(path)
}

/// Relies on rusqlite::Connection::execute: runs one statement with the values
/// bound in order.
#[verifier::external_body]
fn connection_execute(conn: &Connection, sql: &str, params: &Vec<SqlParam>) -> (r: Result<
    usize,
    rusqlite::Error,
>) {
    let values: Vec<rusqlite::types::Value> = params.iter().map(|p| match p {
        SqlParam::Text(t) => rusqlite::types::Value::Text(t.clone()),
        SqlParam::Int(i) => rusqlite::types::Value::Integer(*i),
    }).collect();
    conn.execute(sql, rusqlite::params_from_iter(values))
}

/// Relies on rusqlite's Connection::prepare, Statement::query_map and Row::get:
/// runs one query with the text values bound in order, and reads the first
/// three columns of each row, a failed read as `None`.
#[verifier::external_body]
fn connection_query(conn: &Connection, sql: &str, args: &Vec<String>) -> (r: Result<
    Vec<RawRow>,
    rusqlite::Error,
>) {
    let mut stmt = conn.prepare(sql)?;
    let rows = stmt.query_map(rusqlite::params_from_iter(args.iter()), |row| {
        Ok((row.get(0).ok(), row.get(1).ok(), row.get(2).ok()))
    })?;
    rows.collect()
}

/// A text column as read: a missing value counts as empty text.
pub open spec fn text_or_empty(v: Option<String>) -> Seq<char> {
    match v {
        Some(t) => t@,
        None => seq![],
    }
}

/// A level as read: a missing, negative or too large value counts as zero.
pub open spec fn level_or_zero(v: Option<i64>) -> u32 {
    match v {
        Some(i) => if 0 <= i <= u32::MAX {
            i as u32
        } else {
            0
        },
        None => 0,
    }
}

/// The entry that a row read from the database stands for.
pub open spec fn row_entry(row: RawRow) -> EntryView {
    EntryView { word: text_or_empty(row.0), mean: opt_view(row.1), level: level_or_zero(row.2) }
}

/// The entries that the rows read from the database stand for.
pub open spec fn rows_entries(rows: Seq<RawRow>) -> Seq<EntryView> {
    rows.map_values(|row: RawRow| row_entry(row))
}

/// Turns the rows read from the database into entries; a missing word
/// becomes empty text, a missing level zero, and a missing definition stays
/// missing.
pub fn decode_rows(rows: &Vec<RawRow>) -> (r: Vec<DictEntry>)
    ensures
        entries_view(r@) == rows_entries(rows@),
{
    let mut r: Vec<DictEntry> = Vec::new();
    for i in 0..rows.len()
        invariant
            entries_view(r@) == rows_entries(rows@.take(i as int)),
    {
        let row = &rows[i];
        let word = match &row.0 {
            Some(t) => t.clone(),
            None => String::new(),
        };
        let mean = match &row.1 {
            Some(t) => Some(t.clone()),
            None => None,
        };
        let level: u32 = match row.2 {
            Some(v) => if 0 <= v && v <= u32::MAX as i64 {
                v as u32
            } else {
                0
            },
            None => 0,
        };
        let ghost before = r@;
        r.push(DictEntry { word, mean, level });
        assert(entries_view(r@) =~= entries_view(before).push(row_entry(rows@[i as int])));
        assert(rows@.take(i + 1) =~= rows@.take(i as int).push(rows@[i as int]));
        assert(rows_entries(rows@.take(i + 1)) =~= rows_entries(rows@.take(i as int)).push(
            row_entry(rows@[i as int]),
        ));
    }
    assert(rows@.take(rows.len() as int) =~= rows@);
    r
}

/// The values bound by the upsert: the word, the user's definition and the
/// level, in that order.
pub fn upsert_params(item: DictionaryItem) -> (r: Vec<SqlParam>)
    ensures
        r@.len() == 3,
        r@[0] is Text && r@[0]->Text_0@ == item.word@,
        r@[1] is Text && r@[1]->Text_0@ == item.user_mean@,
        r@[2] == SqlParam::Int(item.level as i64),
{
    let mut params: Vec<SqlParam> = Vec::new();
    params.push(SqlParam::Text(item.word));
    params.push(SqlParam::Text(item.user_mean));
    params.push(SqlParam::Int(item.level as i64));
    params
}

/// The value bound by the delete: the word.
pub fn delete_params(word: &str) -> (r: Vec<SqlParam>)
    ensures
        r@.len() == 1,
        r@[0] is Text && r@[0]->Text_0@ == word@,
{
    let mut params: Vec<SqlParam> = Vec::new();
    params.push(SqlParam::Text(word.to_owned()));
    params
}

/// The value bound by both lookup queries: the word looked up.
pub fn lookup_args(word: &str) -> (r: Vec<String>)
    ensures
        r.deep_view() == seq![word@],
{
    let mut args: Vec<String> = Vec::new();
    args.push(word.to_owned());
    assert(args.deep_view() =~= seq![word@]);
    args
}

/// The path that `open_db` opens: the given one, or the default when it is
/// empty.
pub fn resolve_db_path(path: &str) -> (r: &str)
    ensures
        path@.len() == 0 ==> r@ == DEFAULT_DB_PATH@,
        path@.len() > 0 ==> r@ == path@,
{
    if path.is_empty() {
        DEFAULT_DB_PATH
    } else {
        path
    }
}

/// An open connection to the dictionary database: a bundled `items` table that
/// is only read, and a `user` table of the user's own entries.
pub struct DictionaryDb {
    db: Connection,
}

impl DictionaryDb {
    /// Opens the database at `path` (the default path when it is empty) and
    /// makes sure that the user table exists.
    pub fn open_db(path: &str) -> (r: Result<DictionaryDb, DictError>)
        ensures
            r is Err ==> r == Err::<DictionaryDb, DictError>(DictError::StoreOpenError),
    {
        let path = resolve_db_path(path);
        match connection_open(path) {
            Ok(db) => {
                let ret = DictionaryDb { db };
                match ret.create_user_table() {
                    Ok(()) => Ok(ret),
                    Err(_) => Err(DictError::StoreOpenError),
                }
            },
            Err(_) => Err(DictError::StoreOpenError),
        }
    }

    /// Creates the user table unless it exists.
    pub fn create_user_table(&self) -> (r: Result<(), DictError>)
        ensures
            r is Err ==> r == Err::<(), DictError>(DictError::QueryError),
    {
        let params: Vec<SqlParam> = Vec::new();
        match connection_execute(&self.db, CREATE_USER_TABLE_SQL, &params) {
            Ok(_) => Ok(()),
            Err(_) => Err(DictError::QueryError),
        }
    }

    /// Stores `item.user_mean` as the user's definition of `item.word` with
    /// `item.level`, replacing the definition and level of an existing entry
    /// for the same word. An empty definition is refused.
    pub fn upsert_word(&self, item: DictionaryItem) -> (r: Result<(), DictError>)
        ensures
            item.user_mean@.len() == 0 ==> r == Err::<(), DictError>(DictError::QueryError),
            r is Err ==> r == Err::<(), DictError>(DictError::QueryError),
    {
        if item.user_mean.as_str().is_empty() {
            return Err(DictError::QueryError);
        }
        let params = upsert_params(item);
        match connection_execute(&self.db, UPSERT_SQL, &params) {
            Ok(_) => Ok(()),
            Err(_) => Err(DictError::QueryError),
        }
    }

    /// Removes the user entry whose word equals `word` ignoring case; removing
    /// a word that is not there succeeds.
    pub fn delete_word(&self, word: &str) -> (r: Result<(), DictError>)
        ensures
            r is Err ==> r == Err::<(), DictError>(DictError::QueryError),
    {
        let params = delete_params(word);
        match connection_execute(&self.db, DELETE_SQL, &params) {
            Ok(_) => Ok(()),
            Err(_) => Err(DictError::QueryError),
        }
    }

    fn query_entries(&self, sql: &str, args: &Vec<String>) -> (r: Result<Vec<DictEntry>, DictError>)
        ensures
            r is Err ==> r == Err::<Vec<DictEntry>, DictError>(DictError::QueryError),
    {
        match connection_query(&self.db, sql, args) {
            Ok(rows) => Ok(decode_rows(&rows)),
            Err(_) => Err(DictError::QueryError),
        }
    }

    /// Looks `word` up in both tables: at most three merged rows, ranked as
    /// `merge_results` says, over the rows that the database handed back.
    pub fn get_items(&self, word: &str) -> (r: Result<Vec<DictionaryItem>, DictError>)
        ensures
            match r {
                Ok(items) => {
                    &&& items.len() <= MAX_RESULTS
                    &&& exists|b: Seq<EntryView>, u: Seq<EntryView>|
                        is_ranked_merge(#[trigger] items_view(items@), candidates(word@, b, u), word@)
                },
                Err(e) => e == DictError::QueryError,
            },
    {
        let query = word.to_owned();
        let args = lookup_args(word);
        let bundled = match self.query_entries(BUNDLED_MATCH_SQL, &args) {
            Ok(v) => v,
            Err(e) => return Err(e),
        };
        let user = match self.query_entries(USER_MATCH_SQL, &args) {
            Ok(v) => v,
            Err(e) => return Err(e),
        };
        let items = merge_results(&query, &bundled, &user);
        assert(is_ranked_merge(items_view(items@), candidates(word@, entries_view(bundled@), entries_view(user@)), word@));
        Ok(items)
    }

    /// Every user entry, in the order in which they were first stored.
    pub fn list_user_entries(&self) -> (r: Result<Vec<DictEntry>, DictError>)
        ensures
            r is Err ==> r == Err::<Vec<DictEntry>, DictError>(DictError::QueryError),
    {
        let args: Vec<String> = Vec::new();
        self.query_entries(USER_LIST_SQL, &args)
    }
}

/// A store that may have failed to open. An unopened store finds nothing and
/// refuses every change.
pub enum DictDB {
    Opened(DictionaryDb),
    Unopened,
}

impl DictDB {
    /// The store that the result of `DictionaryDb::open_db` leaves.
    pub fn from_open_result(r: Result<DictionaryDb, DictError>) -> (s: DictDB)
        ensures
            r is Ok <==> s is Opened,
    {
        match r {
            Ok(db) => DictDB::Opened(db),
            Err(_) => DictDB::Unopened,
        }
    }

    /// Looks `word` up; a failed lookup, or an unopened store, gives no rows.
    pub fn get_dict_items(&self, word: &str) -> (r: Vec<DictionaryItem>)
        ensures
            r.len() <= MAX_RESULTS,
            self is Unopened ==> r.len() == 0,
            exists|b: Seq<EntryView>, u: Seq<EntryView>|
                is_ranked_merge(#[trigger] items_view(r@), candidates(word@, b, u), word@),
    {
        let r = match self {
            DictDB::Opened(db) => match db.get_items(word) {
                Ok(items) => items,
                Err(_) => Vec::new(),
            },
            DictDB::Unopened => Vec::new(),
        };
        proof {
            if r.len() == 0 {
                let none: Seq<EntryView> = seq![];
                assert(candidates(word@, none, none) =~= seq![]);
                assert(items_view(r@) =~= seq![]);
                assert(is_ranked_merge(items_view(r@), candidates(word@, none, none), word@));
            }
        }
        r
    }

    /// Upserts into an opened store; an unopened one refuses.
    pub fn upsert_word(&self, item: DictionaryItem) -> (r: Result<(), DictError>)
        ensures
            self is Unopened ==> r == Err::<(), DictError>(DictError::StoreOpenError),
            self is Opened && item.user_mean@.len() == 0 ==> r == Err::<(), DictError>(DictError::QueryError),
            self is Opened && r is Err ==> r == Err::<(), DictError>(DictError::QueryError),
    {
        match self {
            DictDB::Opened(db) => db.upsert_word(item),
            DictDB::Unopened => Err(DictError::StoreOpenError),
        }
    }

    /// Deletes from an opened store; an unopened one refuses.
    pub fn delete_word(&self, word: &str) -> (r: Result<(), DictError>)
        ensures
            self is Unopened ==> r == Err::<(), DictError>(DictError::StoreOpenError),
            self is Opened && r is Err ==> r == Err::<(), DictError>(DictError::QueryError),
    {
        match self {
            DictDB::Opened(db) => db.delete_word(word),
            DictDB::Unopened => Err(DictError::StoreOpenError),
        }
    }
}

} // verus!
