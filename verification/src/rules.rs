use vstd::prelude::*;
use crate::config::{Rule, RuleView, TAGMASK, rules, spec_rules};
use crate::model::{Client, Wm, WmView};

verus! {

/// `needle` occurs in `hay` at position `i`.
pub open spec fn occurs_at(hay: Seq<u8>, needle: Seq<u8>, i: int) -> bool {
    0 <= i && i + needle.len() <= hay.len() && hay.subrange(i, i + needle.len() as int) == needle
}

/// `needle` occurs somewhere in `hay` (the empty needle occurs everywhere).
pub open spec fn contains_text(hay: Seq<u8>, needle: Seq<u8>) -> bool {
    exists|i: int| #[trigger] occurs_at(hay, needle, i)
}

/// Whether `needle` occurs in `hay`.
pub fn has_text(hay: &[u8], needle: &[u8]) -> (r: bool)
    ensures
        r == contains_text(hay@, needle@),
{
    let n = needle.len();
    let h = hay.len();
    if n > h {
        proof {
            assert forall|i: int| !#[trigger] occurs_at(hay@, needle@, i) by {}
        }
        return false;
    }
    let mut i: usize = 0;
    while i <= h - n
        invariant
            n == needle@.len(),
            h == hay@.len(),
            n <= h,
            i <= h - n + 1,
            forall|k: int| 0 <= k < i ==> !#[trigger] occurs_at(hay@, needle@, k),
        decreases h - n + 1 - i,
    {
        let mut j: usize = 0;
        while j < n && hay[i + j] == needle[j]
            invariant
                n == needle@.len(),
                h == hay@.len(),
                i + n <= h,
                j <= n,
                forall|t: int| 0 <= t < j ==> hay@[i + t] == needle@[t],
            decreases n - j,
        {
            j += 1;
        }
        if j == n {
            proof {
                assert(hay@.subrange(i as int, i + n) =~= needle@);
                assert(occurs_at(hay@, needle@, i as int));
            }
            return true;
        }
        proof {
            assert(hay@.subrange(i as int, i + n)[j as int] != needle@[j as int]);
        }
        i += 1;
    }
    proof {
        assert forall|k: int| !#[trigger] occurs_at(hay@, needle@, k) by {
            if 0 <= k < i {
            }
        }
    }
    false
}

/// A pattern that is absent matches anything; one that is present matches
/// where it occurs.
pub open spec fn pattern_matches(p: Option<Seq<u8>>, text: Seq<u8>) -> bool {
    match p {
        Some(n) => contains_text(text, n),
        None => true,
    }
}

/// Rule `r` applies to a window with this title, class and instance.
pub open spec fn rule_applies(r: RuleView, title: Seq<u8>, class: Seq<u8>, instance: Seq<u8>) -> bool {
    pattern_matches(r.title, title) && pattern_matches(r.class, class) && pattern_matches(r.instance, instance)
}

fn pattern_check(p: &Option<Vec<u8>>, text: &[u8]) -> (r: bool)
    ensures
        r == pattern_matches(crate::config::opt_view(*p), text@),
{
    match p {
        Some(n) => has_text(text, n.as_slice()),
        None => true,
    }
}

/// The first monitor, from monitor `k` on, whose number is `num`.
pub open spec fn monitor_numbered(v: WmView, k: int, num: i32) -> Option<usize>
    decreases v.mons.len() - k,
{
    if k < 0 || k >= v.mons.len() {
        None
    } else if v.mons[k].num == num {
        Some(k as usize)
    } else {
        monitor_numbered(v, k + 1, num)
    }
}

/// Client `c` after the rules from position `k` on, in order, were applied:
/// each rule that applies sets whether the client is a terminal, may not be
/// swallowed or floats, adds its tags, and moves the client to the monitor
/// it names, where there is one.
pub open spec fn rules_from(v: WmView, rs: Seq<RuleView>, k: int, c: Client, title: Seq<u8>, class: Seq<u8>, instance: Seq<u8>) -> Client
    decreases rs.len() - k,
{
    if k < 0 || k >= rs.len() {
        c
    } else {
        rules_from(v, rs, k + 1, rule_step(v, rs[k], c, title, class, instance), title, class, instance)
    }
}

/// Client `c` after rule `r`: where the rule applies, it sets whether the
/// client is a terminal, may not be swallowed or floats, adds its tags, and
/// moves the client to the monitor it names, where there is one.
pub open spec fn rule_step(v: WmView, r: RuleView, c: Client, title: Seq<u8>, class: Seq<u8>, instance: Seq<u8>) -> Client {
    if rule_applies(r, title, class, instance) {
        Client {
            isterminal: r.isterminal != 0,
            noswallow: r.noswallow != 0,
            isfloating: r.isfloating != 0,
            tags: c.tags | r.tags,
            mon: match monitor_numbered(v, 0, r.monitor) { Some(m) => m, None => c.mon },
            ..c
        }
    } else {
        c
    }
}

/// The class or instance name a window reports, "broken" where it has none.
pub open spec fn hint_name(n: Option<Seq<u8>>) -> Seq<u8> {
    match n {
        Some(s) => s,
        None => crate::window::broken_title(),
    }
}

/// Client `c`, with the title `title`, class and instance names, after the
/// rules: it starts untagged and not floating; what the applying rules give
/// is kept; tags outside the tag mask are dropped, and a client left with no
/// tag takes the tags its monitor shows.
pub open spec fn ruled(v: WmView, c: Client, title: Seq<u8>, class: Option<Seq<u8>>, instance: Option<Seq<u8>>) -> Client {
    let c0 = Client { isfloating: false, tags: 0, ..c };
    let c1 = rules_from(v, spec_rules(), 0, c0, title, hint_name(class), hint_name(instance));
    Client {
        tags: if c1.tags & TAGMASK != 0 { c1.tags & TAGMASK } else { v.shown_tags(c1.mon as int) },
        ..c1
    }
}

pub proof fn lemma_rules_from_mon(v: WmView, rs: Seq<RuleView>, k: int, c: Client, title: Seq<u8>, class: Seq<u8>, instance: Seq<u8>)
    requires
        c.mon < v.mons.len(),
    ensures
        rules_from(v, rs, k, c, title, class, instance).mon < v.mons.len(),
        rules_from(v, rs, k, c, title, class, instance).alive == c.alive,
        rules_from(v, rs, k, c, title, class, instance).pid == c.pid,
        rules_from(v, rs, k, c, title, class, instance).win == c.win,
    decreases rs.len() - k,
{
    if 0 <= k < rs.len() {
        lemma_monitor_numbered_range(v, 0, rs[k].monitor);
        lemma_rules_from_mon(v, rs, k + 1, rule_step(v, rs[k], c, title, class, instance), title, class, instance);
    }
}

proof fn lemma_monitor_numbered_range(v: WmView, k: int, num: i32)
    ensures
        monitor_numbered(v, k, num) matches Some(m) ==> (m as int) < v.mons.len(),
    decreases v.mons.len() - k,
{
    if 0 <= k < v.mons.len() && v.mons[k].num != num {
        lemma_monitor_numbered_range(v, k + 1, num);
    }
}

impl Wm {
    /// The first monitor whose number is `num`.
    fn monitor_with_num(&self, num: i32) -> (r: Option<usize>)
        ensures
            r == monitor_numbered(self@, 0, num),
            r matches Some(m) ==> (m as int) < self@.mons.len(),
    {
        proof { lemma_monitor_numbered_range(self@, 0, num); }
        let n = self.mons.len();
        let mut k: usize = 0;
        while k < n
            invariant
                n == self@.mons.len(),
                k <= n,
                monitor_numbered(self@, k as int, num) == monitor_numbered(self@, 0, num),
            decreases n - k,
        {
            if self.mons[k].num == num {
                return Some(k);
            }
            k += 1;
        }
        None
    }

    /// Applies rule `r` to client `c`.
    fn apply_rule(&self, c: &mut Client, r: &Rule, title: &[u8], cls: &[u8], ins: &[u8])
        requires
            old(c).mon < self@.mons.len(),
        ensures
            *final(c) == rule_step(self@, r@, *old(c), title@, cls@, ins@),
            final(c).mon < self@.mons.len(),
    {
        let applies = pattern_check(&r.title, title) && pattern_check(&r.class, cls) && pattern_check(&r.instance, ins);
        if applies {
            c.isterminal = r.isterminal != 0;
            c.noswallow = r.noswallow != 0;
            c.isfloating = r.isfloating != 0;
            c.tags = c.tags | r.tags;
            match self.monitor_with_num(r.monitor) {
                Some(m) => { c.mon = m; },
                None => {},
            }
        }
    }

    /// Applies the rules to client `c`, whose window has the title `title`
    /// and the class and instance names `class` and `instance` (where it
    /// reports them): floating, terminal and swallowing behaviour, tags and
    /// monitor.
    pub fn applyrules(&self, c: &mut Client, title: &[u8], class: Option<&[u8]>, instance: Option<&[u8]>)
        requires
            self@.wf(),
            old(c).mon < self@.mons.len(),
        ensures
            *final(c) == ruled(self@, *old(c), title@, opt_seq(class), opt_seq(instance)),
            final(c).mon < self@.mons.len(),
    {
        let broken: Vec<u8> = vec![98u8, 114u8, 111u8, 107u8, 101u8, 110u8];
        proof { assert(broken@ =~= crate::window::broken_title()); }
        let cls: &[u8] = match class { Some(x) => x, None => broken.as_slice() };
        let ins: &[u8] = match instance { Some(x) => x, None => broken.as_slice() };
        c.isfloating = false;
        c.tags = 0;
        let ghost c0 = *c;
        let rs = rules();
        let n = rs.len();
        let mut k: usize = 0;
        proof { lemma_monitor_numbered_range(self@, 0, 0); }
        while k < n
            invariant
                n == rs@.len(),
                n == spec_rules().len(),
                forall|j: int| 0 <= j < rs@.len() ==> #[trigger] rs@[j]@ == spec_rules()[j],
                k <= n,
                c.mon < self@.mons.len(),
                rules_from(self@, spec_rules(), k as int, *c, title@, cls@, ins@)
                    == rules_from(self@, spec_rules(), 0, c0, title@, cls@, ins@),
            decreases n - k,
        {
            let r = &rs[k];
            proof { assert(rs@[k as int]@ == spec_rules()[k as int]); }
            self.apply_rule(c, r, title, cls, ins);
            k += 1;
        }
        self.settle_tags(c);
    }

    /// Drops the tags of client `c` outside the tag mask; a client left with
    /// no tag takes the tags its monitor shows.
    fn settle_tags(&self, c: &mut Client)
        requires
            self@.wf(),
            old(c).mon < self@.mons.len(),
        ensures
            *final(c) == (Client {
                tags: if old(c).tags & TAGMASK != 0 { old(c).tags & TAGMASK } else { self@.shown_tags(old(c).mon as int) },
                ..*old(c)
            }),
    {
        let m = c.mon;
        proof { assert(self@.mon_ok(m as int)); }
        let st = self.mons[m].seltags;
        if c.tags & TAGMASK != 0 {
            c.tags = c.tags & TAGMASK;
        } else {
            c.tags = self.mons[m].tagset[st];
        }
    }
}

/// The bytes of an optional name.
pub open spec fn opt_seq(o: Option<&[u8]>) -> Option<Seq<u8>> {
    match o {
        Some(s) => Some(s@),
        None => None,
    }
}

} // verus!
