//! The add-only subscriber set.
//!
//! A subscriber is a chat identity paired with a reserved counter. The set
//! grows on first contact and is never pruned; adding an identity that is
//! already present only resets its reserved counter.

use vstd::prelude::*;

verus! {

/// The chat identities of a subscriber sequence, in order.
pub open spec fn sub_ids(s: Seq<(i64, usize)>) -> Seq<i64> {
    s.map_values(|e: (i64, usize)| e.0)
}

/// No chat identity occurs twice.
pub open spec fn distinct_ids(s: Seq<(i64, usize)>) -> bool {
    forall|i: int, j: int| 0 <= i < j < s.len() ==> (#[trigger] s[i]).0 != (#[trigger] s[j]).0
}

/// Whether `uid` is one of the subscribers.
pub open spec fn has_sub(s: Seq<(i64, usize)>, uid: i64) -> bool {
    exists|i: int| 0 <= i < s.len() && (#[trigger] s[i]).0 == uid
}

/// The set after writing the entry `(uid, c)`: the first entry carrying
/// `uid` is overwritten in place, or the entry is appended at the end.
pub open spec fn upsert(s: Seq<(i64, usize)>, uid: i64, c: usize) -> Seq<(i64, usize)>
    decreases s.len(),
{
    if s.len() == 0 {
        seq![(uid, c)]
    } else if s[0].0 == uid {
        seq![(uid, c)] + s.drop_first()
    } else {
        seq![s[0]] + upsert(s.drop_first(), uid, c)
    }
}

/// The set after registering `uid`: its entry's reserved counter is reset
/// to zero, or a fresh entry is appended at the end.
pub open spec fn add_sub(s: Seq<(i64, usize)>, uid: i64) -> Seq<(i64, usize)> {
    upsert(s, uid, 0)
}

proof fn lemma_upsert_has_uid(s: Seq<(i64, usize)>, uid: i64, c: usize)
    ensures
        has_sub(upsert(s, uid, c), uid),
    decreases s.len(),
{
    let r = upsert(s, uid, c);
    if s.len() == 0 {
        assert(r[0].0 == uid);
    } else if s[0].0 == uid {
        assert(r[0].0 == uid);
    } else {
        lemma_upsert_has_uid(s.drop_first(), uid, c);
        let t = upsert(s.drop_first(), uid, c);
        let k = choose|k: int| 0 <= k < t.len() && (#[trigger] t[k]).0 == uid;
        assert(r[k + 1] == t[k]);
        assert(r[k + 1].0 == uid);
    }
}

/// Law: writing an entry for `uid` makes it a subscriber, keeps every
/// other subscriber, lets nobody else in, and keeps identities distinct.
/// Registering (`add_sub`) is the counter-zero case.
pub proof fn lemma_upsert_registers(s: Seq<(i64, usize)>, uid: i64, c: usize)
    requires
        distinct_ids(s),
    ensures
        distinct_ids(upsert(s, uid, c)),
        forall|x: i64| has_sub(upsert(s, uid, c), x) <==> (x == uid || has_sub(s, x)),
    decreases s.len(),
{
    let r = upsert(s, uid, c);
    if s.len() == 0 {
        assert forall|x: i64| has_sub(r, x) implies (x == uid || has_sub(s, x)) by {
            let i = choose|i: int| 0 <= i < r.len() && (#[trigger] r[i]).0 == x;
            assert(r[i].0 == uid);
        }
        assert(r[0].0 == uid);
    } else if s[0].0 == uid {
        assert forall|x: i64| has_sub(r, x) implies (x == uid || has_sub(s, x)) by {
            let i = choose|i: int| 0 <= i < r.len() && (#[trigger] r[i]).0 == x;
            if i > 0 {
                assert(r[i] == s[i]);
            }
        }
        assert forall|x: i64| (x == uid || has_sub(s, x)) implies has_sub(r, x) by {
            if x == uid {
                assert(r[0].0 == uid);
            } else {
                let i = choose|i: int| 0 <= i < s.len() && (#[trigger] s[i]).0 == x;
                assert(i > 0);
                assert(r[i] == s[i]);
            }
        }
        assert forall|i: int, j: int| 0 <= i < j < r.len() implies (#[trigger] r[i]).0 != (
        #[trigger] r[j]).0 by {
            assert(r[j] == s[j]);
            if i > 0 {
                assert(r[i] == s[i]);
            } else {
                assert(r[0].0 == s[0].0);
            }
        }
    } else {
        assert(distinct_ids(s.drop_first())) by {
            assert(forall|i: int, j: int|
                0 <= i < j < s.drop_first().len() ==> (#[trigger] s.drop_first()[i]).0 != (
                #[trigger] s.drop_first()[j]).0);
        }
        lemma_upsert_registers(s.drop_first(), uid, c);
        let t = upsert(s.drop_first(), uid, c);
        assert forall|x: i64| has_sub(r, x) implies (x == uid || has_sub(s, x)) by {
            let i = choose|i: int| 0 <= i < r.len() && (#[trigger] r[i]).0 == x;
            if i == 0 {
                assert(s[0].0 == x);
            } else {
                assert(r[i] == t[i - 1]);
                assert(t[i - 1].0 == x);
                assert(has_sub(t, x));
                if x != uid {
                    assert(has_sub(s.drop_first(), x));
                    let k = choose|k: int|
                        0 <= k < s.drop_first().len() && (#[trigger] s.drop_first()[k]).0 == x;
                    assert(s[k + 1].0 == x);
                }
            }
        }
        assert forall|x: i64| (x == uid || has_sub(s, x)) implies has_sub(r, x) by {
            if x == uid || !has_sub(s.drop_first(), x) && has_sub(s, x) {
                if x == uid {
                    lemma_upsert_has_uid(s.drop_first(), uid, c);
                    let k = choose|k: int| 0 <= k < t.len() && (#[trigger] t[k]).0 == x;
                    assert(r[k + 1] == t[k]);
                } else {
                    let i = choose|i: int| 0 <= i < s.len() && (#[trigger] s[i]).0 == x;
                    if i == 0 {
                        assert(r[0] == s[0]);
                    } else {
                        assert(s.drop_first()[i - 1].0 == x);
                    }
                }
            } else {
                assert(has_sub(s.drop_first(), x));
                assert(has_sub(t, x));
                let k = choose|k: int| 0 <= k < t.len() && (#[trigger] t[k]).0 == x;
                assert(r[k + 1] == t[k]);
            }
        }
        assert forall|i: int, j: int| 0 <= i < j < r.len() implies (#[trigger] r[i]).0 != (
        #[trigger] r[j]).0 by {
            if i == 0 {
                assert(r[0] == s[0]);
                assert(r[j] == t[j - 1]);
                assert(has_sub(t, r[j].0));
                if r[j].0 == s[0].0 {
                    assert(has_sub(s.drop_first(), s[0].0) || s[0].0 == uid);
                    if has_sub(s.drop_first(), s[0].0) {
                        let k = choose|k: int|
                            0 <= k < s.drop_first().len() && (#[trigger] s.drop_first()[k]).0
                                == s[0].0;
                        assert(s[k + 1].0 == s[0].0);
                    }
                }
            } else {
                assert(r[i] == t[i - 1]);
                assert(r[j] == t[j - 1]);
            }
        }
    }
}

/// The subscriber set: chat identities with a reserved counter each,
/// insertion-ordered, no identity twice.
#[derive(Debug, Clone)]
pub struct SubsState {
    subscribers: Vec<(i64, usize)>,
}

impl View for SubsState {
    type V = Seq<(i64, usize)>;

    closed spec fn view(&self) -> Seq<(i64, usize)> {
        self.subscribers@
    }
}

impl Default for SubsState {
    /// The empty subscriber set.
    fn default() -> (r: Self)
        ensures
            r@ == Seq::<(i64, usize)>::empty(),
    {
        let r = SubsState { subscribers: Vec::new() };
        proof {
            assert(r@ =~= Seq::<(i64, usize)>::empty());
        }
        r
    }
}

impl SubsState {
    /// The set's invariant: no chat identity occurs twice.
    pub open spec fn wf(&self) -> bool {
        distinct_ids(self@)
    }

    /// Writes the entry `(uid, c)`, overwriting `uid`'s entry when it is
    /// already present.
    fn put(&mut self, uid: i64, c: usize)
        ensures
            final (self)@ == upsert(old(self)@, uid, c),
    {
        let ghost orig = self@;
        let n = self.subscribers.len();
        let mut k: usize = 0;
        proof {
            assert(orig.take(0) =~= Seq::<(i64, usize)>::empty());
            assert(orig.skip(0) =~= orig);
            assert(Seq::<(i64, usize)>::empty() + upsert(orig, uid, c) =~= upsert(orig, uid, c));
        }
        while k < n
            invariant
                k <= n,
                n == self.subscribers@.len(),
                self.subscribers@ == orig,
                orig == old(self)@,
                upsert(orig, uid, c) == orig.take(k as int) + upsert(orig.skip(k as int), uid, c),
                forall|i: int| 0 <= i < k ==> (#[trigger] orig[i]).0 != uid,
            decreases n - k,
        {
            let e = self.subscribers[k];
            if e.0 == uid {
                self.subscribers[k] = (uid, c);
                proof {
                    let tail = orig.skip(k as int);
                    assert(tail[0] == orig[k as int]);
                    assert(upsert(tail, uid, c) == seq![(uid, c)] + tail.drop_first());
                    assert(tail.drop_first() =~= orig.skip(k + 1));
                    assert(self.subscribers@ =~= orig.take(k as int) + seq![(uid, c)]
                        + orig.skip(k + 1));
                    assert(orig.take(k as int) + (seq![(uid, c)] + orig.skip(k + 1))
                        =~= orig.take(k as int) + seq![(uid, c)] + orig.skip(k + 1));
                }
                return ;
            }
            k = k + 1;
            proof {
                let tail = orig.skip(k - 1);
                assert(tail[0] == orig[k - 1]);
                assert(tail[0].0 != uid);
                assert(upsert(tail, uid, c) == seq![tail[0]] + upsert(tail.drop_first(), uid, c));
                assert(tail.drop_first() =~= orig.skip(k as int));
                assert(orig.take(k as int) =~= orig.take(k - 1) + seq![orig[k - 1]]);
                assert(orig.take(k - 1) + seq![tail[0]] + upsert(orig.skip(k as int), uid, c)
                    =~= orig.take(k as int) + upsert(orig.skip(k as int), uid, c));
            }
        }
        self.subscribers.push((uid, c));
        proof {
            assert(orig.skip(n as int) =~= Seq::<(i64, usize)>::empty());
            assert(upsert(Seq::<(i64, usize)>::empty(), uid, c) == seq![(uid, c)]);
            assert(orig.take(n as int) =~= orig);
            assert(self.subscribers@ =~= orig + seq![(uid, c)]);
        }
    }

    /// Registers `uid`, resetting its reserved counter when it is already
    /// present.
    pub fn add(&mut self, uid: i64)
        ensures
            final (self)@ == add_sub(old(self)@, uid),
    {
        self.put(uid, 0);
    }

    /// The chat identities of every subscriber, in insertion order.
    pub fn chat_ids(&self) -> (r: Vec<i64>)
        ensures
            r@ == sub_ids(self@),
    {
        let n = self.subscribers.len();
        let mut r: Vec<i64> = Vec::new();
        let mut k: usize = 0;
        while k < n
            invariant
                k <= n,
                n == self.subscribers@.len(),
                r@ == sub_ids(self.subscribers@.take(k as int)),
            decreases n - k,
        {
            r.push(self.subscribers[k].0);
            k = k + 1;
            proof {
                assert(sub_ids(self.subscribers@.take(k as int)) =~= sub_ids(
                    self.subscribers@.take(k - 1),
                ).push(self.subscribers@[k - 1].0));
            }
        }
        proof {
            assert(self.subscribers@.take(n as int) =~= self.subscribers@);
        }
        r
    }

    /// How many subscribers are registered.
    pub fn len(&self) -> (r: usize)
        ensures
            r == self@.len(),
    {
        self.subscribers.len()
    }
}

/// Crash-durable persistence of the subscriber set, for the library's
/// caller to implement. A load must hand back a set with distinct
/// identities (the provided decoder guarantees it).
pub trait SubsStateManager {
    fn load_subs_state(&mut self) -> (r: SubsState)
        ensures
            r.wf(),
    ;

    fn save_subs_state(&mut self, state: &SubsState);
}

/// One subscriber as a flat record: the chat identity and the reserved
/// counter, tab-separated.
pub open spec fn encode_sub(e: (i64, usize)) -> Seq<char> {
    crate::text::i64_rep(e.0 as int) + seq!['\t'] + crate::text::dec_rep(e.1 as int)
}

/// The whole subscriber set as newline-separated records.
pub open spec fn encode_subs(s: Seq<(i64, usize)>) -> Seq<char>
    decreases s.len(),
{
    if s.len() == 0 {
        Seq::empty()
    } else if s.len() == 1 {
        encode_sub(s[0])
    } else {
        encode_subs(s.drop_last()) + seq!['\n'] + encode_sub(s.last())
    }
}

/// What one stored line parses to: a chat identity and a counter in the
/// first two tab-separated fields, or nothing when either is missing or
/// malformed.
pub open spec fn parse_sub_record(line: Seq<char>) -> Option<(i64, usize)> {
    let fields = crate::text::split_pat_spec(line, seq!['\t']);
    if fields.len() >= 2 {
        match (crate::text::i64_parse_spec(fields[0]), crate::text::usize_parse_spec(fields[1])) {
            (Some(id), Some(c)) => Some((id as i64, c as usize)),
            _ => None,
        }
    } else {
        None
    }
}

/// What a stored file's lines parse to, in order, or nothing when any
/// line is malformed.
pub open spec fn parse_sub_records(lines: Seq<Seq<char>>) -> Option<Seq<(i64, usize)>>
    decreases lines.len(),
{
    if lines.len() == 0 {
        Some(Seq::empty())
    } else {
        match (parse_sub_records(lines.drop_last()), parse_sub_record(lines.last())) {
            (Some(es), Some(e)) => Some(es.push(e)),
            _ => None,
        }
    }
}

/// A malformed line anywhere makes the whole file unreadable.
pub proof fn lemma_parse_sub_records_none(lines: Seq<Seq<char>>, i: int)
    requires
        0 <= i < lines.len(),
        parse_sub_record(lines[i]) is None,
    ensures
        parse_sub_records(lines) is None,
    decreases lines.len(),
{
    if i == lines.len() - 1 {
    } else {
        assert(lines.drop_last()[i] == lines[i]);
        lemma_parse_sub_records_none(lines.drop_last(), i);
    }
}

/// Folding parsed entries into a set, later entries for the same identity
/// overwriting earlier ones.
pub open spec fn fold_upsert(acc: Seq<(i64, usize)>, es: Seq<(i64, usize)>) -> Seq<(i64, usize)>
    decreases es.len(),
{
    if es.len() == 0 {
        acc
    } else {
        fold_upsert(upsert(acc, es[0].0, es[0].1), es.drop_first())
    }
}

impl SubsState {
    /// The set as its flat stored text.
    pub fn encode(&self) -> (r: String)
        ensures
            r@ == encode_subs(self@),
    {
        let mut out: Vec<char> = Vec::new();
        let n = self.subscribers.len();
        let mut i: usize = 0;
        proof {
            assert(self@.take(0) =~= Seq::<(i64, usize)>::empty());
            assert(out@ =~= encode_subs(self@.take(0)));
        }
        while i < n
            invariant
                i <= n,
                n == self.subscribers@.len(),
                self@ == self.subscribers@,
                out@ == encode_subs(self@.take(i as int)),
            decreases n - i,
        {
            let ghost before = out@;
            if i > 0 {
                out.push('\n');
            }
            let e = self.subscribers[i];
            let idc = crate::text::i64_chars(e.0);
            crate::text::push_all(&mut out, idc.as_slice());
            out.push('\t');
            let cc = crate::text::dec_chars(e.1);
            crate::text::push_all(&mut out, cc.as_slice());
            i = i + 1;
            proof {
                let t = self@.take(i as int);
                assert(t.drop_last() =~= self@.take(i - 1));
                assert(t.last() == self@[i - 1]);
                if i == 1 {
                    assert(out@ =~= encode_sub(self@[0]));
                    assert(t[0] == self@[0]);
                } else {
                    assert(out@ =~= encode_subs(self@.take(i - 1)) + seq!['\n'] + encode_sub(
                        self@[i - 1],
                    ));
                }
            }
        }
        proof {
            assert(self@.take(n as int) =~= self@);
        }
        crate::text::string_from_chars(out.as_slice())
    }

    /// Reads a stored file back into a subscriber set, later records for
    /// an identity overwriting earlier ones, so identities stay distinct.
    /// Fails exactly when some line lacks two well-formed fields.
    pub fn decode(s: &str) -> (r: Result<SubsState, String>)
        ensures
            match r {
                Ok(ss) => ss.wf() && (parse_sub_records(
                    crate::text::split_pat_spec(s@, seq!['\n']),
                ) matches Some(es) && ss@ == fold_upsert(Seq::empty(), es)),
                Err(_) => parse_sub_records(crate::text::split_pat_spec(s@, seq!['\n'])) is None,
            },
    {
        let sc = crate::text::str_chars(s);
        let mut nl: Vec<char> = Vec::new();
        nl.push('\n');
        let mut tab: Vec<char> = Vec::new();
        tab.push('\t');
        proof {
            assert(nl@ =~= seq!['\n']);
            assert(tab@ =~= seq!['\t']);
        }
        let lines = crate::text::split_pat(sc.as_slice(), nl.as_slice());
        let ghost lv = lines.deep_view();
        let n = lines.len();
        let mut ss = SubsState::default();
        let mut i: usize = 0;
        proof {
            assert(lv.take(0) =~= Seq::<Seq<char>>::empty());
            assert(parse_sub_records(lv.take(0)) == Some(Seq::<(i64, usize)>::empty()));
        }
        while i < n
            invariant
                i <= n,
                n == lines@.len(),
                lv == lines.deep_view(),
                lv == crate::text::split_pat_spec(s@, seq!['\n']),
                tab@ == seq!['\t'],
                ss.wf(),
                parse_sub_records(lv.take(i as int)) matches Some(es) && ss@ == fold_upsert(
                    Seq::empty(),
                    es,
                ),
            decreases n - i,
        {
            let fields = crate::text::split_pat(lines[i].as_slice(), tab.as_slice());
            proof {
                assert(lines@[i as int].deep_view() == lv[i as int]);
                assert(lines@[i as int].deep_view() =~= lines@[i as int]@);
                assert(lv.take(i + 1).drop_last() =~= lv.take(i as int));
                assert(lv.take(i + 1).last() == lv[i as int]);
            }
            if fields.len() < 2 {
                proof {
                    assert(fields.deep_view().len() < 2);
                    lemma_parse_sub_records_none(lv, i as int);
                }
                return Err(String::from_str("bad subscriber record"));
            }
            proof {
                assert(fields@[0].deep_view() =~= fields@[0]@);
                assert(fields@[1].deep_view() =~= fields@[1]@);
            }
            let id = match crate::text::parse_i64(fields[0].as_slice()) {
                Some(v) => v,
                None => {
                    proof {
                        lemma_parse_sub_records_none(lv, i as int);
                    }
                    return Err(String::from_str("bad subscriber record"));
                },
            };
            let c = match crate::text::parse_usize(fields[1].as_slice()) {
                Some(v) => v,
                None => {
                    proof {
                        lemma_parse_sub_records_none(lv, i as int);
                    }
                    return Err(String::from_str("bad subscriber record"));
                },
            };
            let ghost pre = ss@;
            proof {
                lemma_upsert_registers(pre, id, c);
            }
            ss.put(id, c);
            i = i + 1;
            proof {
                let es0 = parse_sub_records(lv.take(i - 1))->0;
                assert(parse_sub_record(lv[i - 1]) == Some((id, c)));
                assert(parse_sub_records(lv.take(i as int)) == Some(es0.push((id, c))));
                lemma_fold_upsert_last(Seq::empty(), es0, (id, c));
            }
        }
        proof {
            assert(lv.take(n as int) =~= lv);
        }
        Ok(ss)
    }
}

/// Folding one more entry is writing it after folding the rest.
pub proof fn lemma_fold_upsert_last(acc: Seq<(i64, usize)>, es: Seq<(i64, usize)>, e: (i64, usize))
    ensures
        fold_upsert(acc, es.push(e)) == upsert(fold_upsert(acc, es), e.0, e.1),
    decreases es.len(),
{
    if es.len() == 0 {
        let x = es.push(e);
        assert(x[0] == e);
        assert(x.drop_first() =~= Seq::<(i64, usize)>::empty());
        assert(fold_upsert(acc, x) == fold_upsert(
            upsert(acc, e.0, e.1),
            Seq::<(i64, usize)>::empty(),
        ));
        assert(fold_upsert(acc, es) == acc);
    } else {
        let x = es.push(e);
        assert(x[0] == es[0]);
        assert(x.drop_first() =~= es.drop_first().push(e));
        lemma_fold_upsert_last(upsert(acc, es[0].0, es[0].1), es.drop_first(), e);
        assert(fold_upsert(acc, x) == fold_upsert(upsert(acc, x[0].0, x[0].1), x.drop_first()));
        assert(fold_upsert(acc, es) == fold_upsert(
            upsert(acc, es[0].0, es[0].1),
            es.drop_first(),
        ));
    }
}

/// A stored subscriber record splits back into its two fields.
proof fn lemma_split_encode_sub(e: (i64, usize))
    ensures
        crate::text::split_pat_spec(encode_sub(e), seq!['\t']) == seq![
            crate::text::i64_rep(e.0 as int),
            crate::text::dec_rep(e.1 as int),
        ],
{
    crate::text::lemma_i64_rep_val(e.0 as int);
    crate::text::lemma_dec_rep_val(e.1 as int);
    let idr = crate::text::i64_rep(e.0 as int);
    let cr = crate::text::dec_rep(e.1 as int);
    crate::text::lemma_split_concat(idr, cr, '\t');
    crate::text::lemma_split_no_sep(idr, '\t');
    assert(forall|i: int| 0 <= i < cr.len() ==> crate::text::is_digit(#[trigger] cr[i]));
    crate::text::lemma_split_no_sep(cr, '\t');
    assert(seq![idr] + seq![cr] =~~= seq![idr, cr]);
}

/// A stored subscriber record parses back to exactly the entry it was
/// written from.
proof fn lemma_parse_sub_inverse(e: (i64, usize))
    ensures
        parse_sub_record(encode_sub(e)) == Some(e),
        forall|i: int| 0 <= i < encode_sub(e).len() ==> encode_sub(e)[i] != '\n',
{
    lemma_split_encode_sub(e);
    crate::text::lemma_i64_rep_val(e.0 as int);
    crate::text::lemma_dec_rep_val(e.1 as int);
    let cr = crate::text::dec_rep(e.1 as int);
    assert(crate::text::is_digit(cr[0]));
    assert(cr[0] != '+');
    assert(crate::text::usize_parse_spec(cr) == Some(e.1 as int));
    assert(forall|i: int| 0 <= i < cr.len() ==> crate::text::is_digit(#[trigger] cr[i]));
    let s = encode_sub(e);
    assert forall|i: int| 0 <= i < s.len() implies s[i] != '\n' by {
        assert(s == crate::text::i64_rep(e.0 as int) + seq!['\t'] + cr);
    }
}

/// Splitting a stored subscriber file at the record separator restores
/// one line per entry.
proof fn lemma_split_encode_subs(s: Seq<(i64, usize)>)
    requires
        s.len() >= 1,
    ensures
        crate::text::split_pat_spec(encode_subs(s), seq!['\n']) == s.map_values(
            |e: (i64, usize)| encode_sub(e),
        ),
    decreases s.len(),
{
    if s.len() == 1 {
        lemma_parse_sub_inverse(s[0]);
        assert(encode_subs(s) == encode_sub(s[0]));
        crate::text::lemma_split_no_sep(encode_sub(s[0]), '\n');
        assert(seq![encode_sub(s[0])] =~~= s.map_values(|e: (i64, usize)| encode_sub(e)));
    } else {
        lemma_split_encode_subs(s.drop_last());
        crate::text::lemma_split_concat(encode_subs(s.drop_last()), encode_sub(s.last()), '\n');
        assert(s.last() == s[s.len() - 1]);
        lemma_parse_sub_inverse(s.last());
        crate::text::lemma_split_no_sep(encode_sub(s.last()), '\n');
        assert(s.drop_last().map_values(|e: (i64, usize)| encode_sub(e)) + seq![
            encode_sub(s.last()),
        ] =~~= s.map_values(|e: (i64, usize)| encode_sub(e)));
    }
}

/// The stored lines of a subscriber set parse back to exactly its
/// entries.
proof fn lemma_parse_sub_records_inverse(s: Seq<(i64, usize)>)
    ensures
        parse_sub_records(s.map_values(|e: (i64, usize)| encode_sub(e))) == Some(s),
    decreases s.len(),
{
    let lines = s.map_values(|e: (i64, usize)| encode_sub(e));
    if s.len() == 0 {
        assert(parse_sub_records(lines) =~~= Some(s)) by {
            assert(lines.len() == 0);
        }
    } else {
        lemma_parse_sub_records_inverse(s.drop_last());
        assert(lines.drop_last() =~= s.drop_last().map_values(|e: (i64, usize)| encode_sub(e)));
        assert(lines.last() == encode_sub(s.last()));
        assert(s.last() == s[s.len() - 1]);
        lemma_parse_sub_inverse(s.last());
        let es0 = parse_sub_records(lines.drop_last())->0;
        assert(parse_sub_records(lines) == Some(es0.push(s.last())));
        assert(s.drop_last().push(s.last()) =~= s);
    }
}

/// Writing an entry for an identity nobody carries appends it at the end.
proof fn lemma_upsert_fresh(s: Seq<(i64, usize)>, uid: i64, c: usize)
    requires
        !has_sub(s, uid),
    ensures
        upsert(s, uid, c) == s.push((uid, c)),
    decreases s.len(),
{
    if s.len() == 0 {
        assert(upsert(s, uid, c) =~= s.push((uid, c)));
    } else {
        assert(s[0].0 != uid);
        assert(!has_sub(s.drop_first(), uid)) by {
            if has_sub(s.drop_first(), uid) {
                let k = choose|k: int|
                    0 <= k < s.drop_first().len() && (#[trigger] s.drop_first()[k]).0 == uid;
                assert(s[k + 1].0 == uid);
            }
        }
        lemma_upsert_fresh(s.drop_first(), uid, c);
        assert(seq![s[0]] + s.drop_first().push((uid, c)) =~= s.push((uid, c)));
    }
}

/// Folding entries with distinct identities onto a set that carries none
/// of them just appends them all, in order.
proof fn lemma_fold_upsert_distinct(acc: Seq<(i64, usize)>, es: Seq<(i64, usize)>)
    requires
        distinct_ids(acc + es),
    ensures
        fold_upsert(acc, es) == acc + es,
    decreases es.len(),
{
    if es.len() == 0 {
        assert(acc + es =~= acc);
    } else {
        let all = acc + es;
        assert(!has_sub(acc, es[0].0)) by {
            if has_sub(acc, es[0].0) {
                let k = choose|k: int| 0 <= k < acc.len() && (#[trigger] acc[k]).0 == es[0].0;
                assert(all[k] == acc[k]);
                assert(all[acc.len() as int] == es[0]);
            }
        }
        lemma_upsert_fresh(acc, es[0].0, es[0].1);
        assert(acc.push(es[0]) + es.drop_first() =~= all);
        lemma_fold_upsert_distinct(acc.push(es[0]), es.drop_first());
        assert(fold_upsert(acc, es) == fold_upsert(acc.push(es[0]), es.drop_first()));
    }
}

/// Law (stored subscriber sets read back unchanged): a set with distinct
/// identities, once written by `encode`, is exactly what `decode`
/// reconstructs — its lines parse back to the same entries, and folding
/// them into an empty set rebuilds the same sequence. With the contracts
/// of `encode` and `decode`, decoding an encoded set yields it unchanged.
pub proof fn lemma_subs_decode_reads_back_encode(s: Seq<(i64, usize)>)
    requires
        s.len() >= 1,
        distinct_ids(s),
    ensures
        parse_sub_records(crate::text::split_pat_spec(encode_subs(s), seq!['\n'])) == Some(s),
        fold_upsert(Seq::empty(), s) == s,
{
    lemma_split_encode_subs(s);
    lemma_parse_sub_records_inverse(s);
    assert(Seq::<(i64, usize)>::empty() + s =~= s);
    lemma_fold_upsert_distinct(Seq::empty(), s);
    assert(fold_upsert(Seq::empty(), s) == Seq::<(i64, usize)>::empty() + s);
}

} // verus!
