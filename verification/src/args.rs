use vstd::prelude::*;
use crate::bytes::{bytes_eq, copy_bytes, copy_vecs, dv};

verus! {

broadcast use vstd::std_specs::vec::axiom_spec_len;

/// A tagged-argument rule: a tag (such as `--name`) together with how many
/// values follow it. Two rules with the same tag count as the same rule,
/// whatever their counts.
pub struct ArgRule {
    tag: Vec<u8>,
    arg_count: usize,
}

impl ArgRule {
    pub closed spec fn tag_spec(&self) -> Seq<u8> {
        self.tag@
    }

    pub closed spec fn count_spec(&self) -> nat {
        self.arg_count as nat
    }

    pub fn new(tag: Vec<u8>, arg_count: usize) -> (r: ArgRule)
        ensures
            r.tag_spec() == tag@,
            r.count_spec() == arg_count as nat,
    {
        ArgRule { tag, arg_count }
    }

    pub fn get_arg_count(&self) -> (r: usize)
        ensures
            r as nat == self.count_spec(),
    {
        self.arg_count
    }
}

impl Clone for ArgRule {
    fn clone(&self) -> (r: ArgRule)
        ensures
            r.tag_spec() == self.tag_spec(),
            r.count_spec() == self.count_spec(),
    {
        ArgRule { tag: copy_bytes(&self.tag), arg_count: self.arg_count }
    }
}

/// The first position in `rules` whose tag is `tag`, or -1.
pub open spec fn spec_rule_index(rules: Seq<(Seq<u8>, nat)>, tag: Seq<u8>) -> int
    decreases rules.len(),
{
    if rules.len() == 0 {
        -1
    } else if rules[0].0 == tag {
        0
    } else {
        let r = spec_rule_index(rules.skip(1), tag);
        if r < 0 {
            -1
        } else {
            r + 1
        }
    }
}

pub proof fn lemma_rule_index(rules: Seq<(Seq<u8>, nat)>, tag: Seq<u8>)
    ensures
        -1 <= spec_rule_index(rules, tag) < rules.len(),
        spec_rule_index(rules, tag) >= 0 ==> rules[spec_rule_index(rules, tag)].0 == tag,
        forall|j: int| 0 <= j < spec_rule_index(rules, tag) ==> rules[j].0 != tag,
        spec_rule_index(rules, tag) == -1 ==> forall|j: int|
            0 <= j < rules.len() ==> rules[j].0 != tag,
    decreases rules.len(),
{
    if rules.len() > 0 && rules[0].0 != tag {
        lemma_rule_index(rules.skip(1), tag);
        assert(forall|j: int| 1 <= j < rules.len() ==> rules[j] == rules.skip(1)[j - 1]);
    }
}

/// Rule collection, left to right: a rule is kept only when its tag is new.
pub open spec fn spec_collect_rules(
    acc: Seq<(Seq<u8>, nat)>,
    rs: Seq<(Seq<u8>, nat)>,
) -> Seq<(Seq<u8>, nat)>
    decreases rs.len(),
{
    if rs.len() == 0 {
        acc
    } else if spec_rule_index(acc, rs[0].0) >= 0 {
        spec_collect_rules(acc, rs.skip(1))
    } else {
        spec_collect_rules(acc.push(rs[0]), rs.skip(1))
    }
}

/// The result of scanning `args` from position `i`: tag values recorded
/// into `vals` (parallel to `rules`), everything else appended to `un`.
/// At a known tag, the `count` following arguments are recorded when they
/// all exist (`Some`), and `None` is recorded when the line ends early;
/// either way the scan resumes after them.
pub open spec fn spec_load(
    rules: Seq<(Seq<u8>, nat)>,
    vals: Seq<Option<Seq<Seq<u8>>>>,
    un: Seq<Seq<u8>>,
    args: Seq<Seq<u8>>,
    i: int,
) -> (Seq<Option<Seq<Seq<u8>>>>, Seq<Seq<u8>>)
    decreases args.len() - i,
{
    if i < 0 || i >= args.len() {
        (vals, un)
    } else {
        let k = spec_rule_index(rules, args[i]);
        if k >= 0 {
            let c = rules[k].1 as int;
            if i + c < args.len() {
                spec_load(
                    rules,
                    vals.update(k, Some(args.subrange(i + 1, i + 1 + c))),
                    un,
                    args,
                    i + c + 1,
                )
            } else {
                (vals.update(k, None), un)
            }
        } else {
            spec_load(rules, vals, un.push(args[i]), args, i + 1)
        }
    }
}

/// Holds the rules for the tagged arguments a command accepts, and after
/// `load`, the values found for each tag plus the untagged leftovers.
pub struct ArgRetriever {
    tagged: Vec<(ArgRule, Option<Vec<Vec<u8>>>)>,
    untagged: Vec<Vec<u8>>,
}

impl ArgRetriever {
    /// The rule list: tag and value count, in order, tags distinct.
    pub closed spec fn rules(&self) -> Seq<(Seq<u8>, nat)> {
        self.tagged@.map_values(
            |e: (ArgRule, Option<Vec<Vec<u8>>>)| (e.0.tag@, e.0.arg_count as nat),
        )
    }

    /// The recorded values, parallel to the rules.
    pub closed spec fn vals(&self) -> Seq<Option<Seq<Seq<u8>>>> {
        self.tagged@.map_values(
            |e: (ArgRule, Option<Vec<Vec<u8>>>)|
                match e.1 {
                    Some(v) => Some(dv(v@)),
                    None => None,
                },
        )
    }

    /// The untagged arguments, in order of appearance.
    pub closed spec fn untagged_view(&self) -> Seq<Seq<u8>> {
        dv(self.untagged@)
    }

    /// No two rules share a tag.
    pub open spec fn wf(&self) -> bool {
        forall|i: int, j: int|
            0 <= i < j < self.rules().len() ==> (#[trigger] self.rules()[i]).0 != (
            #[trigger] self.rules()[j]).0
    }

    /// The values recorded for `tag`: `None` when the tag is unknown or was
    /// not present with all of its values.
    pub open spec fn spec_tag_args(&self, tag: Seq<u8>) -> Option<Seq<Seq<u8>>> {
        let k = spec_rule_index(self.rules(), tag);
        if k < 0 {
            None
        } else {
            self.vals()[k]
        }
    }

    /// The position of the rule for `tag`, when one exists.
    fn rule_pos(&self, tag: &Vec<u8>) -> (r: Option<usize>)
        ensures
            match r {
                Some(k) => k < self.tagged@.len() && k as int == spec_rule_index(
                    self.rules(),
                    tag@,
                ),
                None => spec_rule_index(self.rules(), tag@) == -1,
            },
    {
        proof {
            lemma_rule_index(self.rules(), tag@);
        }
        let mut k: usize = 0;
        while k < self.tagged.len()
            invariant
                k <= self.tagged@.len(),
                forall|j: int| 0 <= j < k ==> (#[trigger] self.rules()[j]).0 != tag@,
            decreases self.tagged@.len() - k,
        {
            if bytes_eq(&self.tagged[k].0.tag, tag) {
                proof {
                    assert(self.rules()[k as int].0 == tag@);
                    lemma_rule_index(self.rules(), tag@);
                }
                return Some(k);
            }
            k = k + 1;
        }
        proof {
            lemma_rule_index(self.rules(), tag@);
        }
        None
    }

    /// Builds a retriever for the given rules; a tag seen twice keeps its
    /// first rule. No values are loaded yet.
    pub fn new(rules: &Vec<ArgRule>) -> (r: ArgRetriever)
        ensures
            r.wf(),
            r.rules() == spec_collect_rules(
                Seq::<(Seq<u8>, nat)>::empty(),
                rules@.map_values(|a: ArgRule| (a.tag_spec(), a.count_spec())),
            ),
            forall|k: int| 0 <= k < r.vals().len() ==> (#[trigger] r.vals()[k]) is None,
            r.vals().len() == r.rules().len(),
            r.untagged_view() == Seq::<Seq<u8>>::empty(),
    {
        let ghost rsv = rules@.map_values(|a: ArgRule| (a.tag_spec(), a.count_spec()));
        let mut out = ArgRetriever { tagged: Vec::new(), untagged: Vec::new() };
        let mut i: usize = 0;
        proof {
            assert(out.rules() =~= Seq::<(Seq<u8>, nat)>::empty());
            assert(rsv.skip(0) =~= rsv);
            assert(out.untagged_view() =~= Seq::<Seq<u8>>::empty());
        }
        while i < rules.len()
            invariant
                i <= rules@.len(),
                rsv == rules@.map_values(|a: ArgRule| (a.tag_spec(), a.count_spec())),
                out.wf(),
                out.untagged@.len() == 0,
                forall|k: int| 0 <= k < out.vals().len() ==> (#[trigger] out.vals()[k]) is None,
                spec_collect_rules(out.rules(), rsv.skip(i as int)) == spec_collect_rules(
                    Seq::<(Seq<u8>, nat)>::empty(),
                    rsv,
                ),
            decreases rules@.len() - i,
        {
            let ghost rem = rsv.skip(i as int);
            proof {
                assert(rem[0] == rsv[i as int]);
                assert(rem.skip(1) =~= rsv.skip(i as int + 1));
            }
            let pos = out.rule_pos(&rules[i].tag);
            let ghost oldrules = out.rules();
            let ghost oldvals = out.vals();
            if pos.is_none() {
                out.tagged.push((rules[i].clone(), None));
                proof {
                    assert(out.rules() =~= oldrules.push(rsv[i as int]));
                    assert(out.vals() =~= oldvals.push(None));
                    assert(out.untagged_view() =~= Seq::<Seq<u8>>::empty());
                    lemma_rule_index(oldrules, rsv[i as int].0);
                    // the new tag differs from every existing one
                    assert forall|a: int, b: int|
                        0 <= a < b < out.rules().len() implies (#[trigger] out.rules()[a]).0 != (
                        #[trigger] out.rules()[b]).0 by {
                        if b == out.rules().len() - 1 {
                            assert(oldrules[a].0 != rsv[i as int].0);
                        }
                    }
                }
            }
            i = i + 1;
        }
        proof {
            assert(rsv.skip(i as int) =~= Seq::<(Seq<u8>, nat)>::empty());
            assert(out.untagged_view() =~= Seq::<Seq<u8>>::empty());
        }
        out
    }

    /// Scans `args`, recording the values after each known tag and keeping
    /// the rest as untagged arguments; anything recorded earlier is
    /// discarded first.
    pub fn load(&mut self, args: &Vec<Vec<u8>>)
        requires
            old(self).wf(),
        ensures
            final(self).wf(),
            final(self).rules() == old(self).rules(),
            (final(self).vals(), final(self).untagged_view()) == spec_load(
                old(self).rules(),
                Seq::<Option<Seq<Seq<u8>>>>::new(old(self).rules().len(), |k: int| None),
                Seq::<Seq<u8>>::empty(),
                dv(args@),
                0,
            ),
    {
        let ghost rules0 = self.rules();
        let ghost reset_vals = Seq::<Option<Seq<Seq<u8>>>>::new(rules0.len(), |k: int| None);
        // discard anything recorded by an earlier load
        let mut k: usize = 0;
        while k < self.tagged.len()
            invariant
                k <= self.tagged@.len(),
                self.rules() == rules0,
                self.wf(),
                self.untagged@ == old(self).untagged@,
                reset_vals == Seq::<Option<Seq<Seq<u8>>>>::new(rules0.len(), |j: int| None),
                forall|j: int| 0 <= j < k ==> (#[trigger] self.vals()[j]) is None,
            decreases self.tagged@.len() - k,
        {
            let ghost oldt = self.tagged@;
            let ghost oldvals = self.vals();
            let entry = self.tagged.remove(k);
            self.tagged.insert(k, (entry.0, None));
            proof {
                assert(self.tagged@ =~= oldt.update(k as int, (oldt[k as int].0, None)));
                assert(self.rules() =~= rules0);
                assert(self.vals() =~= oldvals.update(k as int, None));
            }
            k = k + 1;
        }
        proof {
            assert(self.vals().len() == rules0.len());
            assert(forall|j: int| 0 <= j < self.vals().len() ==> (#[trigger] self.vals()[j]) is None);
        }
        self.untagged.clear();
        proof {
            assert(self.vals() =~= reset_vals);
            assert(self.untagged_view() =~= Seq::<Seq<u8>>::empty());
            assert(dv(args@).skip(0) =~= dv(args@));
        }
        let ghost target = spec_load(rules0, reset_vals, Seq::<Seq<u8>>::empty(), dv(args@), 0);
        let mut i: usize = 0;
        while i < args.len()
            invariant
                i <= args@.len(),
                args@.len() == args.len(),
                self.wf(),
                rules0 == old(self).rules(),
                self.rules() == rules0,
                self.vals().len() == rules0.len(),
                target == spec_load(
                    rules0,
                    Seq::<Option<Seq<Seq<u8>>>>::new(rules0.len(), |k: int| None),
                    Seq::<Seq<u8>>::empty(),
                    dv(args@),
                    0,
                ),
                spec_load(rules0, self.vals(), self.untagged_view(), dv(args@), i as int)
                    == target,
            decreases args@.len() - i,
        {
            proof {
                assert(dv(args@)[i as int] == args@[i as int]@);
            }
            let pos = self.rule_pos(&args[i]);
            match pos {
                Some(kk) => {
                    let c = self.tagged[kk].0.arg_count;
                    proof {
                        assert(rules0[kk as int].1 == c as nat);
                    }
                    let ghost oldvals = self.vals();
                    let ghost oldun = self.untagged_view();
                    if c < args.len() && i < args.len() - c {
                        // all values are present
                        let mut sub: Vec<Vec<u8>> = Vec::new();
                        let mut j: usize = 0;
                        while j < c
                            invariant
                                j <= c,
                                args@.len() == args.len(),
                                i + c < args@.len(),
                                dv(sub@) == dv(args@).subrange(i as int + 1, i as int + 1 + j as int),
                            decreases c - j,
                        {
                            proof {
                                assert(dv(args@).subrange(
                                    i as int + 1,
                                    i as int + 1 + j as int + 1,
                                ) =~= dv(args@).subrange(i as int + 1, i as int + 1 + j as int).push(
                                    dv(args@)[i as int + 1 + j as int],
                                ));
                                crate::bytes::lemma_dv_push(sub@, args@[i as int + 1 + j as int]);
                            }
                            sub.push(copy_bytes(&args[i + 1 + j]));
                            j = j + 1;
                        }
                        let ghost oldt = self.tagged@;
                        let entry = self.tagged.remove(kk);
                        self.tagged.insert(kk, (entry.0, Some(sub)));
                        proof {
                            assert(self.tagged@ =~= oldt.update(
                                kk as int,
                                (oldt[kk as int].0, self.tagged@[kk as int].1),
                            ));
                            assert(self.rules() =~= rules0);
                            assert(self.vals() =~= oldvals.update(
                                kk as int,
                                Some(dv(args@).subrange(i as int + 1, i as int + 1 + c as int)),
                            ));
                            assert(self.untagged_view() == oldun);
                        }
                        i = i + c;
                        i = i + 1;
                    } else {
                        // the argument line ends before all values appear
                        let ghost oldt = self.tagged@;
                        let entry = self.tagged.remove(kk);
                        self.tagged.insert(kk, (entry.0, None));
                        proof {
                            assert(self.tagged@ =~= oldt.update(
                                kk as int,
                                (oldt[kk as int].0, None),
                            ));
                            assert(self.rules() =~= rules0);
                            assert(self.vals() =~= oldvals.update(kk as int, None));
                            assert(self.untagged_view() == oldun);
                            assert(i as int + c as int >= args@.len());
                        }
                        return ;
                    }
                },
                None => {
                    let ghost oldun = self.untagged_view();
                    self.untagged.push(copy_bytes(&args[i]));
                    proof {
                        assert(self.untagged_view() =~= oldun.push(dv(args@)[i as int]));
                    }
                    i = i + 1;
                },
            }
        }
        proof {
            assert(spec_load(rules0, self.vals(), self.untagged_view(), dv(args@), i as int) == (
                self.vals(),
                self.untagged_view(),
            ));
        }
    }

    /// Whether `tag` was present with all of its values.
    pub fn has_tag(&self, tag: &Vec<u8>) -> (r: bool)
        ensures
            r == (self.spec_tag_args(tag@) is Some),
    {
        self.get_tag_args(tag).is_some()
    }

    /// The values recorded after `tag`, when the tag is known and was
    /// present with all of them.
    pub fn get_tag_args(&self, tag: &Vec<u8>) -> (r: Option<Vec<Vec<u8>>>)
        ensures
            match r {
                Some(v) => self.spec_tag_args(tag@) == Some(dv(v@)),
                None => self.spec_tag_args(tag@) is None,
            },
    {
        match self.rule_pos(tag) {
            None => None,
            Some(k) => {
                match &self.tagged[k].1 {
                    None => {
                        proof {
                            assert(self.vals()[k as int] is None);
                        }
                        None
                    },
                    Some(v) => {
                        let out = copy_vecs(v);
                        proof {
                            assert(self.vals()[k as int] == Some(dv(v@)));
                        }
                        Some(out)
                    },
                }
            },
        }
    }

    /// The untagged arguments, in order.
    pub fn get_untagged(&self) -> (r: Vec<Vec<u8>>)
        ensures
            dv(r@) == self.untagged_view(),
    {
        copy_vecs(&self.untagged)
    }
}

} // verus!
