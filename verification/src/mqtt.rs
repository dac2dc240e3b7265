//! MQTT topic filters, and the routing of incoming messages to handlers and to
//! attached variables.
//!
//! The broker connection itself lives with the caller: what is computed here is
//! which handler a message goes to, which messages wait in the buffer, and what
//! the attached variables are set to.
use vstd::prelude::*;
use crate::text::{chars_of, owned};

verus! {

/// The levels of a topic: its text split at every `/` (one empty level for the
/// empty text), as `str::split('/')` yields them.
pub open spec fn levels(s: Seq<char>) -> Seq<Seq<char>>
    decreases s.len(),
{
    if s.len() == 0 {
        seq![Seq::<char>::empty()]
    } else {
        let prev = levels(s.drop_last());
        if s.last() == '/' {
            prev.push(Seq::<char>::empty())
        } else {
            prev.update(prev.len() - 1, prev.last().push(s.last()))
        }
    }
}

/// The level `#`.
pub open spec fn multi_level() -> Seq<char> {
    seq!['#']
}

/// The level `+`.
pub open spec fn single_level() -> Seq<char> {
    seq!['+']
}

/// Whether the filter levels `f` match the topic levels `t`, walked in step: `#`
/// matches whatever is left, `+` matches any one level, any other level only
/// itself, and both must run out together.
pub open spec fn levels_match(f: Seq<Seq<char>>, t: Seq<Seq<char>>) -> bool
    decreases f.len(),
{
    if f.len() == 0 {
        t.len() == 0
    } else if f[0] == multi_level() {
        true
    } else if t.len() == 0 {
        false
    } else if f[0] == single_level() || f[0] == t[0] {
        levels_match(f.drop_first(), t.drop_first())
    } else {
        false
    }
}

/// Whether the topic filter `filter` matches the topic `topic`.
pub open spec fn filter_matches(filter: Seq<char>, topic: Seq<char>) -> bool {
    levels_match(levels(filter), levels(topic))
}

proof fn lemma_levels_nonempty(s: Seq<char>)
    ensures
        levels(s).len() >= 1,
    decreases s.len(),
{
    if s.len() > 0 {
        lemma_levels_nonempty(s.drop_last());
    }
}

/// The views of a list of char vectors.
pub open spec fn vecs_view(v: Seq<Vec<char>>) -> Seq<Seq<char>> {
    v.map_values(|x: Vec<char>| x@)
}

/// The levels of `s`, as `levels` says.
fn split_levels(s: &str) -> (r: Vec<Vec<char>>)
    ensures
        vecs_view(r@) == levels(s@),
{
    let cs = chars_of(s);
    let mut done: Vec<Vec<char>> = Vec::new();
    let mut cur: Vec<char> = Vec::new();
    assert(cs@.take(0) =~= Seq::<char>::empty());
    assert(vecs_view(done@).push(cur@) =~= levels(cs@.take(0)));
    for i in 0..cs.len()
        invariant
            cs@ == s@,
            vecs_view(done@).push(cur@) == levels(cs@.take(i as int)),
    {
        let c = cs[i];
        let ghost before = cs@.take(i as int);
        assert(cs@.take(i + 1).drop_last() =~= before);
        assert(cs@.take(i + 1).last() == c);
        if c == '/' {
            let ghost dv = vecs_view(done@);
            let finished = cur;
            done.push(finished);
            cur = Vec::new();
            assert(vecs_view(done@) =~= dv.push(finished@));
            assert(vecs_view(done@).push(cur@) =~= levels(cs@.take(i + 1)));
        } else {
            let ghost dv = vecs_view(done@);
            let ghost old_cur = cur@;
            cur.push(c);
            assert(dv.push(cur@) =~= dv.push(old_cur).update(dv.len() as int, old_cur.push(c)));
        }
    }
    assert(cs@.take(cs.len() as int) =~= cs@);
    let ghost dv = vecs_view(done@);
    let last = cur;
    done.push(last);
    assert(vecs_view(done@) =~= dv.push(last@));
    done
}

/// Whether two char vectors hold the same chars.
fn same_chars(a: &Vec<char>, b: &Vec<char>) -> (r: bool)
    ensures
        r == (a@ == b@),
{
    if a.len() != b.len() {
        return false;
    }
    for i in 0..a.len()
        invariant
            a.len() == b.len(),
            forall|j: int| 0 <= j < i ==> a@[j] == b@[j],
    {
        if a[i] != b[i] {
            return false;
        }
    }
    assert(a@ =~= b@);
    true
}

/// Whether the level `l` is the single char `c`.
fn is_level(l: &Vec<char>, c: char) -> (r: bool)
    ensures
        r == (l@ == seq![c]),
{
    if l.len() == 1 && l[0] == c {
        assert(l@ =~= seq![c]);
        true
    } else {
        false
    }
}

/// Whether the topic filter `filter` matches the topic `topic`.
pub fn topic_matches(filter: &str, topic: &str) -> (r: bool)
    ensures
        r == filter_matches(filter@, topic@),
{
    let f = split_levels(filter);
    let t = split_levels(topic);
    let ghost fv = levels(filter@);
    let ghost tv = levels(topic@);
    let mut i: usize = 0;
    assert(fv.skip(0) =~= fv);
    assert(tv.skip(0) =~= tv);
    loop
        invariant
            vecs_view(f@) == fv,
            vecs_view(t@) == tv,
            i <= f.len(),
            i <= t.len(),
            filter_matches(filter@, topic@) == levels_match(fv.skip(i as int), tv.skip(i as int)),
        decreases f.len() - i,
    {
        let ghost fs = fv.skip(i as int);
        let ghost ts = tv.skip(i as int);
        if i == f.len() {
            assert(fs.len() == 0);
            return i == t.len();
        }
        assert(fs[0] == f@[i as int]@);
        if is_level(&f[i], '#') {
            return true;
        }
        if i == t.len() {
            assert(ts.len() == 0);
            return false;
        }
        assert(ts[0] == t@[i as int]@);
        if is_level(&f[i], '+') || same_chars(&f[i], &t[i]) {
            assert(fs.drop_first() =~= fv.skip(i + 1));
            assert(ts.drop_first() =~= tv.skip(i + 1));
            i = i + 1;
        } else {
            return false;
        }
    }
}

proof fn lemma_levels_match_refl(l: Seq<Seq<char>>)
    ensures
        levels_match(l, l),
    decreases l.len(),
{
    if l.len() > 0 && l[0] != multi_level() {
        lemma_levels_match_refl(l.drop_first());
    }
}

/// Law: every topic filter matches the topic written the same way.
pub proof fn lemma_filter_matches_itself(t: Seq<char>)
    ensures
        filter_matches(t, t),
{
    lemma_levels_match_refl(levels(t));
}

proof fn lemma_levels_one_char(c: char)
    requires
        c != '/',
    ensures
        levels(seq![c]) == seq![seq![c]],
{
    let s = seq![c];
    assert(s.drop_last() =~= Seq::<char>::empty());
    assert(levels(s.drop_last()) == seq![Seq::<char>::empty()]);
    assert(Seq::<char>::empty().push(c) =~= seq![c]);
    assert(levels(s) =~= seq![seq![c]]);
}

/// Law: the filter `#` matches every topic.
pub proof fn lemma_hash_matches_every_topic(t: Seq<char>)
    ensures
        filter_matches(seq!['#'], t),
{
    lemma_levels_one_char('#');
}

/// `s` holds no `/`.
pub open spec fn single_level_topic(s: Seq<char>) -> bool {
    forall|i: int| 0 <= i < s.len() ==> s[i] != '/'
}

proof fn lemma_levels_len_one(s: Seq<char>)
    ensures
        levels(s).len() == 1 <==> single_level_topic(s),
    decreases s.len(),
{
    if s.len() > 0 {
        lemma_levels_len_one(s.drop_last());
        lemma_levels_nonempty(s.drop_last());
        if single_level_topic(s) {
            assert(single_level_topic(s.drop_last()));
        }
        if s.last() != '/' && single_level_topic(s.drop_last()) {
            assert forall|i: int| 0 <= i < s.len() implies s[i] != '/' by {
                if i < s.len() - 1 {
                    assert(s.drop_last()[i] == s[i]);
                }
            }
        }
        if !single_level_topic(s.drop_last()) {
            let i = choose|i: int| 0 <= i < s.drop_last().len() && s.drop_last()[i] == '/';
            assert(s[i] == '/');
        }
    }
}

/// Law: the filter `+` matches exactly the topics of one level, those without `/`.
pub proof fn lemma_plus_matches_one_level(t: Seq<char>)
    ensures
        filter_matches(seq!['+'], t) == single_level_topic(t),
{
    lemma_levels_one_char('+');
    lemma_levels_nonempty(t);
    lemma_levels_len_one(t);
    let f = seq![seq!['+']];
    assert(f.drop_first() =~= Seq::<Seq<char>>::empty());
    assert(f[0] == single_level());
    assert(f[0][0] != multi_level()[0]);
    assert(levels_match(f, levels(t)) == levels_match(f.drop_first(), levels(t).drop_first()));
}

/// Law: a `+` level takes exactly one topic level, whatever it is, and matching goes
/// on with the levels after both.
pub proof fn lemma_plus_consumes_one_level(x: Seq<char>, f: Seq<Seq<char>>, t: Seq<Seq<char>>)
    ensures
        levels_match(seq![single_level()] + f, seq![x] + t) == levels_match(f, t),
{
    let ff = seq![single_level()] + f;
    let tt = seq![x] + t;
    assert(ff[0] == single_level());
    assert(ff[0][0] != multi_level()[0]);
    assert(ff.drop_first() =~= f);
    assert(tt.drop_first() =~= t);
}

/// Law: a level that is not a wildcard matches only the same topic level, and
/// matching goes on with the levels after both.
pub proof fn lemma_literal_level(l: Seq<char>, x: Seq<char>, f: Seq<Seq<char>>, t: Seq<Seq<char>>)
    requires
        l != single_level(),
        l != multi_level(),
    ensures
        levels_match(seq![l] + f, seq![x] + t) == (l == x && levels_match(f, t)),
{
    let ff = seq![l] + f;
    let tt = seq![x] + t;
    assert(ff[0] == l);
    assert(tt[0] == x);
    assert(ff.drop_first() =~= f);
    assert(tt.drop_first() =~= t);
}

/// Law: a `#` level matches whatever levels are left, none included.
pub proof fn lemma_hash_level_matches_rest(f: Seq<Seq<char>>, t: Seq<Seq<char>>)
    ensures
        levels_match(seq![multi_level()] + f, t),
{
    assert((seq![multi_level()] + f)[0] == multi_level());
}

/// Law: a filter whose levels have run out matches only a topic whose levels have run
/// out too; a topic whose levels have run out is matched only by `#` or by nothing.
pub proof fn lemma_levels_run_out(f: Seq<Seq<char>>, t: Seq<Seq<char>>)
    ensures
        levels_match(Seq::empty(), t) == (t.len() == 0),
        f.len() > 0 && f[0] != multi_level() ==> !levels_match(f, Seq::empty()),
{
}

proof fn lemma_levels_no_slash(x: Seq<char>)
    requires
        single_level_topic(x),
    ensures
        levels(x) == seq![x],
    decreases x.len(),
{
    if x.len() == 0 {
        assert(x =~= Seq::<char>::empty());
        assert(levels(x) =~= seq![x]);
    } else {
        let init = x.drop_last();
        assert(single_level_topic(init)) by {
            assert forall|i: int| 0 <= i < init.len() implies init[i] != '/' by {
                assert(init[i] == x[i]);
            }
        }
        lemma_levels_no_slash(init);
        assert(x.last() == x[x.len() - 1]);
        assert(x.last() != '/');
        assert(init.push(x.last()) =~= x);
        let prev = levels(init);
        assert(prev.len() == 1);
        assert(prev.last() == init);
        assert(levels(x) == prev.update(0, prev.last().push(x.last())));
        assert(levels(x) =~= seq![x]);
    }
}

/// Law, on texts: a filter `+/<f>` matches a topic `<x>/<t>` whose first level `<x>`
/// holds no `/` exactly when `<f>` matches `<t>`; so `a/+/c` does not match `a/b/d`.
pub proof fn lemma_plus_filter_text(f: Seq<char>, x: Seq<char>, t: Seq<char>)
    requires
        single_level_topic(x),
    ensures
        filter_matches(seq!['+', '/'] + f, x + seq!['/'] + t) == filter_matches(f, t),
{
    let p = seq!['+', '/'];
    lemma_levels_one_char('+');
    assert(p.drop_last() =~= seq!['+']);
    assert(levels(p) == levels(seq!['+']).push(Seq::<char>::empty()));
    lemma_levels_concat(p, f);
    assert(levels(p).drop_last() =~= seq![single_level()]);
    let q = x + seq!['/'];
    lemma_levels_no_slash(x);
    assert(q.drop_last() =~= x);
    assert(levels(q) == levels(x).push(Seq::<char>::empty()));
    lemma_levels_concat(q, t);
    assert(levels(q).drop_last() =~= seq![x]);
    lemma_plus_consumes_one_level(x, levels(f), levels(t));
    assert(p + f =~= seq!['+', '/'] + f);
}

/// The text whose levels are `l`, joined with `/`.
pub open spec fn join_levels(l: Seq<Seq<char>>) -> Seq<char>
    decreases l.len(),
{
    if l.len() <= 1 {
        if l.len() == 1 {
            l[0]
        } else {
            Seq::empty()
        }
    } else {
        join_levels(l.drop_last()) + seq!['/'] + l.last()
    }
}

/// Joining the levels of a topic gives the topic back.
proof fn lemma_join_levels(s: Seq<char>)
    ensures
        join_levels(levels(s)) == s,
    decreases s.len(),
{
    if s.len() == 0 {
        assert(join_levels(levels(s)) =~= s);
    } else {
        let p = levels(s.drop_last());
        lemma_join_levels(s.drop_last());
        lemma_levels_nonempty(s.drop_last());
        let l = levels(s);
        if s.last() == '/' {
            assert(l.drop_last() =~= p);
            assert(join_levels(l) =~= s);
        } else {
            if p.len() == 1 {
                assert(join_levels(l) =~= s);
            } else {
                assert(l.drop_last() =~= p.drop_last());
                assert(l.last() == p.last().push(s.last()));
                assert(join_levels(p) == join_levels(p.drop_last()) + seq!['/'] + p.last());
                assert(join_levels(l) == join_levels(l.drop_last()) + seq!['/'] + l.last());
                assert(s =~= s.drop_last().push(s.last()));
                assert((join_levels(p.drop_last()) + seq!['/'] + p.last()).push(s.last())
                    =~= join_levels(p.drop_last()) + seq!['/'] + p.last().push(s.last()));
                assert(join_levels(l) =~= s);
            }
        }
    }
}

/// A filter none of whose levels is `+` or `#`.
pub open spec fn literal_filter(f: Seq<char>) -> bool {
    forall|i: int|
        0 <= i < levels(f).len() ==> #[trigger] levels(f)[i] != single_level() && levels(f)[i]
            != multi_level()
}

proof fn lemma_levels_match_literal(f: Seq<Seq<char>>, t: Seq<Seq<char>>)
    requires
        forall|i: int| 0 <= i < f.len() ==> #[trigger] f[i] != single_level() && f[i] != multi_level(),
    ensures
        levels_match(f, t) == (f == t),
    decreases f.len(),
{
    if f.len() == 0 {
        if t.len() == 0 {
            assert(f =~= t);
        }
    } else if t.len() == 0 {
    } else {
        let fr = f.drop_first();
        let tr = t.drop_first();
        assert forall|i: int| 0 <= i < fr.len() implies #[trigger] fr[i] != single_level()
            && fr[i] != multi_level() by {
            assert(fr[i] == f[i + 1]);
        }
        lemma_levels_match_literal(fr, tr);
        if f[0] == t[0] && fr == tr {
            assert forall|i: int| 0 <= i < f.len() implies f[i] == t[i] by {
                if i > 0 {
                    assert(f[i] == fr[i - 1] && t[i] == tr[i - 1]);
                }
            }
            assert(f =~= t);
        }
        if f == t {
            assert(fr =~= tr);
        }
    }
}

/// Law: a filter without wildcards matches exactly the topic written the same way.
pub proof fn lemma_literal_filter_matches_only_itself(f: Seq<char>, t: Seq<char>)
    requires
        literal_filter(f),
    ensures
        filter_matches(f, t) == (f == t),
{
    lemma_levels_match_literal(levels(f), levels(t));
    if levels(f) == levels(t) {
        lemma_join_levels(f);
        lemma_join_levels(t);
    }
}

/// The levels of `s + t`, where `s` ends with `/`: those of `s` before its last,
/// empty one, then those of `t`.
proof fn lemma_levels_concat(s: Seq<char>, t: Seq<char>)
    requires
        s.len() > 0,
        s.last() == '/',
    ensures
        levels(s + t) == levels(s).drop_last() + levels(t),
    decreases t.len(),
{
    lemma_levels_nonempty(s.drop_last());
    assert(levels(s) == levels(s.drop_last()).push(Seq::<char>::empty()));
    if t.len() == 0 {
        assert(s + t =~= s);
        assert(levels(s).drop_last() + levels(t) =~= levels(s));
    } else {
        lemma_levels_concat(s, t.drop_last());
        lemma_levels_nonempty(t.drop_last());
        assert((s + t).drop_last() =~= s + t.drop_last());
        assert((s + t).last() == t.last());
        let a = levels(s).drop_last();
        let b = levels(t.drop_last());
        if t.last() == '/' {
            assert(levels(s + t) =~= a + levels(t));
        } else {
            assert((a + b).update((a + b).len() - 1, (a + b).last().push(t.last())) =~= a
                + b.update(b.len() - 1, b.last().push(t.last())));
            assert(levels(s + t) =~= a + levels(t));
        }
    }
}

/// Matching is decided level by level: a common prefix of levels changes nothing.
proof fn lemma_levels_match_common_prefix(
    a: Seq<Seq<char>>,
    x: Seq<Seq<char>>,
    y: Seq<Seq<char>>,
)
    requires
        levels_match(x, y),
    ensures
        levels_match(a + x, a + y),
    decreases a.len(),
{
    if a.len() > 0 {
        lemma_levels_match_common_prefix(a.drop_first(), x, y);
        assert((a + x).drop_first() =~= a.drop_first() + x);
        assert((a + y).drop_first() =~= a.drop_first() + y);
    }
}

/// Law: for a prefix ending with `/`, the filter `prefix#` matches every topic
/// that starts with `prefix`.
pub proof fn lemma_prefix_hash_matches(prefix: Seq<char>, rest: Seq<char>)
    requires
        prefix.len() > 0,
        prefix.last() == '/',
    ensures
        filter_matches(prefix + seq!['#'], prefix + rest),
{
    lemma_levels_concat(prefix, seq!['#']);
    lemma_levels_concat(prefix, rest);
    lemma_levels_one_char('#');
    lemma_levels_nonempty(rest);
    lemma_levels_match_common_prefix(levels(prefix).drop_last(), seq![seq!['#']], levels(rest));
}

/// Quality of service of a subscription or a publication.
#[derive(Clone, Copy, Debug, PartialEq, Eq, Structural)]
pub enum QoS {
    AtMostOnce,
    AtLeastOnce,
    ExactlyOnce,
}

/// A subscription to be made at the broker.
pub struct Subscription {
    pub topic: String,
    pub qos: QoS,
}

/// A message as it arrived: its topic and its payload.
pub struct MessageData {
    pub topic: String,
    pub payload: String,
}

/// A handler attached to a topic filter.
pub struct FnAttachment<H> {
    pub topic: String,
    pub handler: H,
}

/// A variable, known by its index, attached to a topic.
pub struct VarAttachment {
    pub topic: String,
    pub target: usize,
}

/// The handlers, the attached variables and the messages waiting for them.
pub struct Router<H> {
    fn_attachments: Vec<FnAttachment<H>>,
    var_attachments: Vec<VarAttachment>,
    buffer: Vec<MessageData>,
}

/// What a `Router` holds: handlers by filter in the order attached, variables by
/// topic in the order attached, and the buffered messages as (topic, payload).
pub struct RouterView<H> {
    pub handlers: Seq<(Seq<char>, H)>,
    pub vars: Seq<(Seq<char>, usize)>,
    pub buffer: Seq<(Seq<char>, Seq<char>)>,
}

impl<H> View for Router<H> {
    type V = RouterView<H>;

    closed spec fn view(&self) -> RouterView<H> {
        RouterView {
            handlers: self.fn_attachments@.map_values(|a: FnAttachment<H>| (a.topic@, a.handler)),
            vars: self.var_attachments@.map_values(|a: VarAttachment| (a.topic@, a.target)),
            buffer: self.buffer@.map_values(|m: MessageData| (m.topic@, m.payload@)),
        }
    }
}

/// The index of the first handler whose filter matches `topic`.
pub open spec fn first_handler<H>(hs: Seq<(Seq<char>, H)>, topic: Seq<char>) -> Option<int>
    decreases hs.len(),
{
    if hs.len() == 0 {
        None
    } else {
        match first_handler(hs.drop_last(), topic) {
            Some(i) => Some(i),
            None => if filter_matches(hs.last().0, topic) {
                Some(hs.len() - 1)
            } else {
                None
            },
        }
    }
}

/// The writes that one message makes: one per variable attached to its exact topic,
/// in the order the variables were attached.
pub open spec fn writes_for(
    msg: (Seq<char>, Seq<char>),
    vars: Seq<(Seq<char>, usize)>,
) -> Seq<(usize, Seq<char>)>
    decreases vars.len(),
{
    if vars.len() == 0 {
        Seq::empty()
    } else {
        let rest = writes_for(msg, vars.drop_last());
        if vars.last().0 == msg.0 {
            rest.push((vars.last().1, msg.1))
        } else {
            rest
        }
    }
}

/// The writes that the buffered messages make, message after message.
pub open spec fn pending_writes(
    buffer: Seq<(Seq<char>, Seq<char>)>,
    vars: Seq<(Seq<char>, usize)>,
) -> Seq<(usize, Seq<char>)>
    decreases buffer.len(),
{
    if buffer.len() == 0 {
        Seq::empty()
    } else {
        pending_writes(buffer.drop_last(), vars) + writes_for(buffer.last(), vars)
    }
}

/// The view of a list of writes.
pub open spec fn writes_view(w: Seq<(usize, String)>) -> Seq<(usize, Seq<char>)> {
    w.map_values(|x: (usize, String)| (x.0, x.1@))
}

impl<H: Copy> Router<H> {
    /// A router with nothing attached and nothing buffered.
    pub fn new() -> (r: Self)
        ensures
            r@.handlers == Seq::<(Seq<char>, H)>::empty(),
            r@.vars == Seq::<(Seq<char>, usize)>::empty(),
            r@.buffer == Seq::<(Seq<char>, Seq<char>)>::empty(),
    {
        let r = Router { fn_attachments: Vec::new(), var_attachments: Vec::new(), buffer: Vec::new() };
        assert(r@.handlers =~= Seq::<(Seq<char>, H)>::empty());
        assert(r@.vars =~= Seq::<(Seq<char>, usize)>::empty());
        assert(r@.buffer =~= Seq::<(Seq<char>, Seq<char>)>::empty());
        r
    }

    /// Attaches `handler` to the filter `topic`, after those attached before; the
    /// subscription to make is returned.
    pub fn attach_handler(&mut self, topic: &str, qos: QoS, handler: H) -> (r: Subscription)
        ensures
            final(self)@.handlers == old(self)@.handlers.push((topic@, handler)),
            final(self)@.vars == old(self)@.vars,
            final(self)@.buffer == old(self)@.buffer,
            r.topic@ == topic@,
            r.qos == qos,
    {
        let ghost before = self@;
        self.fn_attachments.push(FnAttachment { topic: owned(topic), handler });
        assert(self@.handlers =~= before.handlers.push((topic@, handler)));
        assert(self@.vars =~= before.vars);
        assert(self@.buffer =~= before.buffer);
        Subscription { topic: owned(topic), qos }
    }

    /// Attaches the variable `target` to the topic `topic`; the subscription to make
    /// is returned.
    pub fn attach_variable(&mut self, topic: &str, qos: QoS, target: usize) -> (r: Subscription)
        ensures
            final(self)@.vars == old(self)@.vars.push((topic@, target)),
            final(self)@.handlers == old(self)@.handlers,
            final(self)@.buffer == old(self)@.buffer,
            r.topic@ == topic@,
            r.qos == qos,
    {
        let ghost before = self@;
        self.var_attachments.push(VarAttachment { topic: owned(topic), target });
        assert(self@.vars =~= before.vars.push((topic@, target)));
        assert(self@.handlers =~= before.handlers);
        assert(self@.buffer =~= before.buffer);
        Subscription { topic: owned(topic), qos }
    }

    /// Routes an incoming message: to the first handler whose filter matches its
    /// topic, which is returned with the message to be run; or, when none matches,
    /// into the buffer for the attached variables.
    pub fn message_callback(&mut self, msg: Option<MessageData>) -> (r: Option<(H, MessageData)>)
        ensures
            final(self)@.handlers == old(self)@.handlers,
            final(self)@.vars == old(self)@.vars,
            msg is None ==> r is None && final(self)@.buffer == old(self)@.buffer,
            msg matches Some(m) ==> match first_handler(old(self)@.handlers, m.topic@) {
                Some(i) => r matches Some((h, m2)) && h == old(self)@.handlers[i].1
                    && m2.topic@ == m.topic@ && m2.payload@ == m.payload@
                    && final(self)@.buffer == old(self)@.buffer,
                None => r is None && final(self)@.buffer == old(self)@.buffer.push(
                    (m.topic@, m.payload@),
                ),
            },
    {
        let m = match msg {
            Some(m) => m,
            None => {
                return None;
            },
        };
        let ghost before = self@;
        match self.find_handler(m.topic.as_str()) {
            Some(i) => {
                let h = self.fn_attachments[i].handler;
                Some((h, m))
            },
            None => {
                let ghost mv = (m.topic@, m.payload@);
                self.buffer.push(m);
                assert(self@.buffer =~= before.buffer.push(mv));
                assert(self@.handlers =~= before.handlers);
                assert(self@.vars =~= before.vars);
                None
            },
        }
    }

    /// The index of the first handler whose filter matches `topic`.
    fn find_handler(&self, topic: &str) -> (r: Option<usize>)
        ensures
            r matches Some(k) ==> first_handler(self@.handlers, topic@) == Some(k as int) && k
                < self.fn_attachments.len() && self@.handlers[k as int].1
                == self.fn_attachments@[k as int].handler,
            r is None ==> first_handler(self@.handlers, topic@) is None,
    {
        let ghost hs = self@.handlers;
        let n = self.fn_attachments.len();
        assert(hs.take(0) =~= Seq::<(Seq<char>, H)>::empty());
        for i in 0..n
            invariant
                n == self.fn_attachments.len(),
                hs == self@.handlers,
                hs.len() == n,
                first_handler(hs.take(i as int), topic@) is None,
        {
            assert(hs.take(i + 1).drop_last() =~= hs.take(i as int));
            assert(hs[i as int].0 == self.fn_attachments@[i as int].topic@);
            if topic_matches(self.fn_attachments[i].topic.as_str(), topic) {
                proof {
                    lemma_first_handler_prefix(hs, i + 1, topic@);
                }
                return Some(i);
            }
        }
        assert(hs.take(n as int) =~= hs);
        None
    }

    /// Hands the buffered messages to the attached variables and empties the buffer:
    /// for each message in turn, each variable attached to exactly its topic is set to
    /// its payload. The writes are returned in that order.
    pub fn fetch_values(&mut self) -> (r: Vec<(usize, String)>)
        ensures
            writes_view(r@) == pending_writes(old(self)@.buffer, old(self)@.vars),
            final(self)@.buffer == Seq::<(Seq<char>, Seq<char>)>::empty(),
            final(self)@.handlers == old(self)@.handlers,
            final(self)@.vars == old(self)@.vars,
    {
        let ghost before = self@;
        let mut out: Vec<(usize, String)> = Vec::new();
        let nb = self.buffer.len();
        let nv = self.var_attachments.len();
        assert(before.buffer.take(0) =~= Seq::<(Seq<char>, Seq<char>)>::empty());
        for i in 0..nb
            invariant
                nb == self.buffer.len(),
                nv == self.var_attachments.len(),
                self@ == before,
                before.buffer.len() == nb,
                before.vars.len() == nv,
                writes_view(out@) == pending_writes(before.buffer.take(i as int), before.vars),
        {
            let ghost msg = before.buffer[i as int];
            let ghost start = writes_view(out@);
            assert(msg == (self.buffer@[i as int].topic@, self.buffer@[i as int].payload@));
            assert(before.vars.take(0) =~= Seq::<(Seq<char>, usize)>::empty());
            assert(start + writes_for(msg, before.vars.take(0)) =~= start);
            for j in 0..nv
                invariant
                    nb == self.buffer.len(),
                    nv == self.var_attachments.len(),
                    self@ == before,
                    before.vars.len() == nv,
                    i < nb,
                    msg == before.buffer[i as int],
                    msg == (self.buffer@[i as int].topic@, self.buffer@[i as int].payload@),
                    writes_view(out@) == start + writes_for(msg, before.vars.take(j as int)),
            {
                assert(before.vars.take(j + 1).drop_last() =~= before.vars.take(j as int));
                assert(before.vars[j as int] == (
                    self.var_attachments@[j as int].topic@,
                    self.var_attachments@[j as int].target,
                ));
                let ghost w0 = writes_view(out@);
                if crate::text::same_text(
                    self.var_attachments[j].topic.as_str(),
                    self.buffer[i].topic.as_str(),
                ) {
                    let p = self.buffer[i].payload.clone();
                    let t = self.var_attachments[j].target;
                    out.push((t, p));
                    assert(writes_view(out@) =~= w0.push((t, msg.1)));
                }
            }
            assert(before.vars.take(nv as int) =~= before.vars);
            assert(before.buffer.take(i + 1).drop_last() =~= before.buffer.take(i as int));
        }
        assert(before.buffer.take(nb as int) =~= before.buffer);
        self.buffer.clear();
        assert(self@.buffer =~= Seq::<(Seq<char>, Seq<char>)>::empty());
        assert(self@.handlers =~= before.handlers);
        assert(self@.vars =~= before.vars);
        out
    }
}

proof fn lemma_first_handler_prefix<H>(hs: Seq<(Seq<char>, H)>, k: int, topic: Seq<char>)
    requires
        0 < k <= hs.len(),
        first_handler(hs.take(k - 1), topic) is None,
        filter_matches(hs[k - 1].0, topic),
    ensures
        first_handler(hs, topic) == Some(k - 1),
    decreases hs.len() - k,
{
    assert(hs.take(k).drop_last() =~= hs.take(k - 1));
    assert(first_handler(hs.take(k), topic) == Some(k - 1));
    if k < hs.len() {
        lemma_first_handler_extend(hs, k, topic);
    } else {
        assert(hs.take(k) =~= hs);
    }
}

proof fn lemma_first_handler_extend<H>(hs: Seq<(Seq<char>, H)>, k: int, topic: Seq<char>)
    requires
        0 < k <= hs.len(),
        first_handler(hs.take(k), topic) is Some,
    ensures
        first_handler(hs, topic) == first_handler(hs.take(k), topic),
    decreases hs.len() - k,
{
    if k < hs.len() {
        assert(hs.take(k + 1).drop_last() =~= hs.take(k));
        lemma_first_handler_extend(hs, k + 1, topic);
    } else {
        assert(hs.take(k) =~= hs);
    }
}

/// The variable values after the writes `w`, made in order, starting from `vals`.
pub open spec fn apply_writes(vals: Map<usize, Seq<char>>, w: Seq<(usize, Seq<char>)>) -> Map<
    usize,
    Seq<char>,
>
    decreases w.len(),
{
    if w.len() == 0 {
        vals
    } else {
        apply_writes(vals, w.drop_last()).insert(w.last().0, w.last().1)
    }
}

/// The value of variable `t` in `vals`, if it has one.
pub open spec fn value_at(vals: Map<usize, Seq<char>>, t: usize) -> Option<Seq<char>> {
    if vals.contains_key(t) {
        Some(vals[t])
    } else {
        None
    }
}

/// Whether variable `t` is attached to exactly the topic `topic`.
pub open spec fn attached(vars: Seq<(Seq<char>, usize)>, topic: Seq<char>, t: usize) -> bool {
    exists|i: int| 0 <= i < vars.len() && vars[i] == (topic, t)
}

/// The payload of the last buffered message on a topic that variable `t` is
/// attached to.
pub open spec fn last_payload(
    buffer: Seq<(Seq<char>, Seq<char>)>,
    vars: Seq<(Seq<char>, usize)>,
    t: usize,
) -> Option<Seq<char>>
    decreases buffer.len(),
{
    if buffer.len() == 0 {
        None
    } else if attached(vars, buffer.last().0, t) {
        Some(buffer.last().1)
    } else {
        last_payload(buffer.drop_last(), vars, t)
    }
}

proof fn lemma_apply_concat(
    vals: Map<usize, Seq<char>>,
    a: Seq<(usize, Seq<char>)>,
    b: Seq<(usize, Seq<char>)>,
)
    ensures
        apply_writes(vals, a + b) == apply_writes(apply_writes(vals, a), b),
    decreases b.len(),
{
    if b.len() == 0 {
        assert(a + b =~= a);
    } else {
        lemma_apply_concat(vals, a, b.drop_last());
        assert((a + b).drop_last() =~= a + b.drop_last());
        assert((a + b).last() == b.last());
    }
}

proof fn lemma_apply_writes_for(
    vals: Map<usize, Seq<char>>,
    msg: (Seq<char>, Seq<char>),
    vars: Seq<(Seq<char>, usize)>,
    t: usize,
)
    ensures
        value_at(apply_writes(vals, writes_for(msg, vars)), t) == if attached(vars, msg.0, t) {
            Some(msg.1)
        } else {
            value_at(vals, t)
        },
    decreases vars.len(),
{
    if vars.len() > 0 {
        let init = vars.drop_last();
        lemma_apply_writes_for(vals, msg, init, t);
        let rest = writes_for(msg, init);
        if vars.last().0 == msg.0 {
            assert(rest.push((vars.last().1, msg.1)).drop_last() =~= rest);
        }
        if attached(init, msg.0, t) {
            let i = choose|i: int| 0 <= i < init.len() && init[i] == (msg.0, t);
            assert(vars[i] == init[i]);
        }
        if attached(vars, msg.0, t) && !attached(init, msg.0, t) {
            let i = choose|i: int| 0 <= i < vars.len() && vars[i] == (msg.0, t);
            if i < init.len() {
                assert(init[i] == vars[i]);
            }
        }
        if vars.last() == (msg.0, t) {
            assert(vars[vars.len() - 1] == (msg.0, t));
        }
    }
}

/// Law: after `fetch_values`, each variable holds the payload of the last buffered
/// message whose topic it is attached to, and a variable that no buffered message
/// concerns keeps its value.
pub proof fn lemma_fetch_values_sets_last_payload(
    vals: Map<usize, Seq<char>>,
    buffer: Seq<(Seq<char>, Seq<char>)>,
    vars: Seq<(Seq<char>, usize)>,
    t: usize,
)
    ensures
        value_at(apply_writes(vals, pending_writes(buffer, vars)), t) == match last_payload(
            buffer,
            vars,
            t,
        ) {
            Some(p) => Some(p),
            None => value_at(vals, t),
        },
    decreases buffer.len(),
{
    if buffer.len() > 0 {
        let init = buffer.drop_last();
        lemma_fetch_values_sets_last_payload(vals, init, vars, t);
        lemma_apply_concat(vals, pending_writes(init, vars), writes_for(buffer.last(), vars));
        lemma_apply_writes_for(
            apply_writes(vals, pending_writes(init, vars)),
            buffer.last(),
            vars,
            t,
        );
    }
}

} // verus!
