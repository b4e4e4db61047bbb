//! Which compactions new series get.
//!
//! A configuration is a list of policies, with `;` between them. Behind a `|` a policy may have a
//! regular expression: it is then only for keys that this matches.
use crate::regexp::{are_refused, is_refused, regex_found, texts_view, Pattern, PatternSet};
use crate::series::policy::{
    is_policy_read, parse_compaction_policy, policy_key, AggregationType, CompactionPolicy,
    PolicyError,
};
use crate::series::rule::CompactionRule;
use crate::text::{
    chars_blank, chars_of, find_char, first_at, is_blank, parts_view, split_chars, split_text,
    text_equal, text_of,
};
use vstd::prelude::*;

verus! {

/// A policy of a configuration, and its filter.
#[derive(Debug)]
pub struct PolicyEntry {
    pub policy: CompactionPolicy,
    pub filter: Option<String>,
}

/// A policy and the text of its filter.
pub ghost struct Entry {
    pub policy: CompactionPolicy,
    pub filter: Option<Seq<char>>,
}

impl PolicyEntry {
    /// The policy and the text of its filter.
    pub open spec fn view(&self) -> Entry {
        Entry {
            policy: self.policy,
            filter: match self.filter {
                Some(f) => Some(f@),
                None => None,
            },
        }
    }

    /// The text of the filter, if there is one.
    pub fn filter_text(&self) -> (r: Option<&str>)
        ensures
            match r {
                Some(t) => self.filter is Some && t@ == self.filter->0@,
                None => self.filter is None,
            },
    {
        match &self.filter {
            Some(f) => Some(f.as_str()),
            None => None,
        }
    }
}

/// A policy with a filter, given what compiling the filter gave.
pub fn accept_filter(policy: CompactionPolicy, text: String, compiled: Option<Pattern>) -> (r: Result<
    PolicyEntry,
    PolicyError,
>)
    requires
        compiled matches Some(re) ==> re.source() == text@,
    ensures
        compiled is Some ==> r is Ok && r->Ok_0@ == (Entry {
            policy,
            filter: Some(text@),
        }),
        compiled is None ==> r is Err && r->Err_0 == PolicyError::InvalidFilter,
{
    match compiled {
        Some(_) => Ok(PolicyEntry { policy, filter: Some(text) }),
        None => Err(PolicyError::InvalidFilter),
    }
}

/// Some compiled regular expression was written as this text.
pub open spec fn is_compiled(text: Seq<char>) -> bool {
    exists|re: Pattern| #[trigger] re.source() == text
}

/// That an entry was read as its text says, as far as it is not up to the regular expression: one
/// that is not blank is refused, or it compiled and is taken.
pub open spec fn is_entry_read(s: Seq<char>, r: Result<Entry, PolicyError>) -> bool {
    let at = first_at(s, '|');
    let filter = s.skip(at + 1);
    exists|p: Result<CompactionPolicy, PolicyError>|
        {
            &&& #[trigger] is_policy_read(s.take(at), p)
            &&& match p {
                Err(e) => r == Err::<Entry, PolicyError>(e),
                Ok(policy) => if at >= s.len() {
                    r == Ok::<Entry, PolicyError>(Entry { policy, filter: None })
                } else if is_blank(filter) {
                    r == Err::<Entry, PolicyError>(PolicyError::EmptyFilter)
                } else {
                    ||| r == Ok::<Entry, PolicyError>(Entry { policy, filter: Some(filter) })
                        && is_compiled(filter)
                    ||| r == Err::<Entry, PolicyError>(PolicyError::InvalidFilter) && is_refused(
                        filter,
                    )
                },
            }
        }
}

/// The entry of a result, by its contents.
pub open spec fn entry_view(r: Result<PolicyEntry, PolicyError>) -> Result<Entry, PolicyError> {
    match r {
        Ok(e) => Ok(e@),
        Err(e) => Err(e),
    }
}

/// Reads a policy and its filter. Whether a filter that is not blank is taken is up to the
/// compiler of regular expressions.
pub fn parse_compaction_policy_with_filter(val: &[char]) -> (r: Result<PolicyEntry, PolicyError>)
    ensures
        is_entry_read(val@, entry_view(r)),
        r is Ok ==> r->Ok_0.policy.bucket_duration_ms > 0,
{
    let at: usize = find_char(val, '|');
    let head = vstd::slice::slice_subrange(val, 0, at);
    assert(head@ =~= val@.take(at as int));
    let parsed = parse_compaction_policy(head);
    assert(is_policy_read(val@.take(at as int), parsed));
    let policy: CompactionPolicy = match parsed {
        Ok(p) => p,
        Err(e) => {
            return Err(e);
        },
    };
    if at >= val.len() {
        return Ok(PolicyEntry { policy, filter: None });
    }
    let filter = vstd::slice::slice_subrange(val, at + 1, val.len());
    assert(filter@ =~= val@.skip(at + 1));
    if chars_blank(filter) {
        return Err(PolicyError::EmptyFilter);
    }
    let text = text_of(filter);
    let compiled = Pattern::new(text.as_str());
    assert(compiled matches Some(re) ==> re.source() == filter@);
    assert(compiled is None ==> is_refused(filter@));
    accept_filter(policy, text, compiled)
}

/// The entries of a list.
pub open spec fn entries_view(v: Seq<PolicyEntry>) -> Seq<Entry> {
    v.map_values(|e: PolicyEntry| e@)
}

/// What one part of a configuration is read as.
pub open spec fn is_part_read(s: Seq<char>, r: Result<Entry, PolicyError>) -> bool {
    if s.len() == 0 {
        r == Err::<Entry, PolicyError>(PolicyError::EmptyPolicy)
    } else {
        is_entry_read(s, r)
    }
}

/// That a configuration was read as its parts say: all of them, or the first that is refused.
pub open spec fn is_list_read(s: Seq<char>, r: Result<Seq<Entry>, PolicyError>) -> bool {
    let parts = split_text(s, ';');
    match r {
        Ok(list) => {
            &&& list.len() == parts.len()
            &&& forall|i: int|
                0 <= i < parts.len() ==> is_part_read(
                    #[trigger] parts[i],
                    Ok::<Entry, PolicyError>(list[i]),
                )
        },
        Err(e) => exists|list: Seq<Entry>| #[trigger] is_refused_after(parts, list, e),
    }
}

/// That the parts of a configuration were read up to one that is refused.
pub open spec fn is_refused_after(parts: Seq<Seq<char>>, list: Seq<Entry>, e: PolicyError) -> bool {
    &&& list.len() < parts.len()
    &&& forall|i: int|
        0 <= i < list.len() ==> is_part_read(
            #[trigger] parts[i],
            Ok::<Entry, PolicyError>(list[i]),
        )
    &&& is_part_read(parts[list.len() as int], Err::<Entry, PolicyError>(e))
}

/// Reads a configuration.
pub fn parse_compaction_policies(val: &str) -> (r: Result<Vec<PolicyEntry>, PolicyError>)
    ensures
        match r {
            Ok(v) => {
                &&& is_list_read(val@, Ok::<Seq<Entry>, PolicyError>(entries_view(v@)))
                &&& v@.len() > 0
            },
            Err(e) => is_list_read(val@, Err::<Seq<Entry>, PolicyError>(e)),
        },
{
    let chars = chars_of(val);
    let pieces = split_chars(chars.as_slice(), ';');
    let ghost parts = split_text(val@, ';');
    proof {
        assert(parts.len() == pieces@.len());
        assert forall|i: int| 0 <= i < pieces@.len() implies (#[trigger] pieces@[i])@
            == parts[i] by {
            assert(parts_view(pieces@)[i] == pieces@[i]@);
        }
    }
    let mut out: Vec<PolicyEntry> = Vec::new();
    let mut i: usize = 0;
    while i < pieces.len()
        invariant
            i <= pieces@.len(),
            parts == split_text(val@, ';'),
            parts.len() == pieces@.len(),
            forall|j: int| 0 <= j < pieces@.len() ==> (#[trigger] pieces@[j])@ == parts[j],
            out@.len() == i,
            forall|j: int|
                0 <= j < i ==> is_part_read(
                    #[trigger] parts[j],
                    Ok::<Entry, PolicyError>(entries_view(out@)[j]),
                ),
        decreases pieces.len() - i,
    {
        let ghost list = entries_view(out@);
        assert(pieces@[i as int]@ == parts[i as int]);
        if pieces[i].len() == 0 {
            assert(is_refused_after(parts, list, PolicyError::EmptyPolicy));
            return Err(PolicyError::EmptyPolicy);
        }
        match parse_compaction_policy_with_filter(pieces[i].as_slice()) {
            Ok(entry) => {
                let ghost e = entry@;
                out.push(entry);
                assert(entries_view(out@) =~= list.push(e));
            },
            Err(e) => {
                assert(is_refused_after(parts, list, e));
                return Err(e);
            },
        }
        i += 1;
    }
    Ok(out)
}

/// The policies of one filter.
#[derive(Debug)]
pub struct FilteredPolicies {
    pub filter: String,
    pub policies: Vec<CompactionPolicy>,
}

/// The policies of a configuration: those for all keys, and those for the keys that a filter
/// matches.
#[derive(Debug)]
pub struct PolicyConfig {
    /// The filters, compiled.
    pub filters: PatternSet,
    pub filtered: Vec<FilteredPolicies>,
    pub global: Vec<CompactionPolicy>,
}

/// The policies of one filter, by its text.
pub ghost struct FilterGroup {
    pub filter: Seq<char>,
    pub policies: Seq<CompactionPolicy>,
}

/// The policies of a configuration, by the texts of the filters.
pub ghost struct Config {
    pub filtered: Seq<FilterGroup>,
    pub global: Seq<CompactionPolicy>,
}

/// Where a filter is in a list, or one past it.
pub open spec fn filter_at(groups: Seq<FilterGroup>, filter: Seq<char>) -> int
    decreases groups.len(),
{
    if groups.len() == 0 {
        0
    } else if groups[0].filter == filter {
        0
    } else {
        1 + filter_at(groups.skip(1), filter)
    }
}

proof fn lemma_filter_at(groups: Seq<FilterGroup>, filter: Seq<char>, at: int)
    requires
        0 <= at <= groups.len(),
        forall|i: int| 0 <= i < at ==> (#[trigger] groups[i]).filter != filter,
        at < groups.len() ==> groups[at].filter == filter,
    ensures
        filter_at(groups, filter) == at,
    decreases groups.len(),
{
    if groups.len() > 0 && at > 0 {
        assert(groups[0].filter != filter);
        let more = groups.skip(1);
        assert forall|i: int| 0 <= i < at - 1 implies (#[trigger] more[i]).filter != filter by {
            assert(more[i] == groups[i + 1]);
        }
        lemma_filter_at(more, filter, at - 1);
    }
}

/// Whether two lists share a policy.
pub open spec fn share_policy(a: Seq<CompactionPolicy>, b: Seq<CompactionPolicy>) -> bool {
    exists|i: int| 0 <= i < b.len() && a.contains(#[trigger] b[i])
}

/// A configuration with more policies, or why it cannot have them: one is there already, with the
/// same filter.
pub open spec fn with_policies(
    c: Config,
    policies: Seq<CompactionPolicy>,
    filter: Option<Seq<char>>,
) -> Result<Config, PolicyError> {
    match filter {
        None => Ok(Config { global: c.global + policies, ..c }),
        Some(f) => {
            let at = filter_at(c.filtered, f);
            if at >= c.filtered.len() {
                Ok(Config { filtered: c.filtered.push(FilterGroup { filter: f, policies }), ..c })
            } else if share_policy(c.filtered[at].policies, policies) {
                Err(PolicyError::DuplicatePolicy)
            } else {
                Ok(
                    Config {
                        filtered: c.filtered.update(
                            at,
                            FilterGroup {
                                filter: f,
                                policies: c.filtered[at].policies + policies,
                            },
                        ),
                        ..c
                    },
                )
            }
        },
    }
}

/// The texts of the filters of a configuration.
pub open spec fn filter_texts(c: Config) -> Seq<Seq<char>> {
    c.filtered.map_values(|g: FilterGroup| g.filter)
}

/// Whether a filter is not in a configuration.
pub open spec fn is_new_filter(c: Config, filter: Option<Seq<char>>) -> bool {
    filter matches Some(f) && filter_at(c.filtered, f) >= c.filtered.len()
}

/// A configuration with more policies, or why it cannot have them: one is there already, or the
/// filter is new and it was not taken.
pub open spec fn with_taken(
    c: Config,
    policies: Seq<CompactionPolicy>,
    filter: Option<Seq<char>>,
    taken: bool,
) -> Result<Config, PolicyError> {
    if is_new_filter(c, filter) && !taken {
        Err(PolicyError::InvalidFilter)
    } else {
        with_policies(c, policies, filter)
    }
}

/// Whether a policy is for a key.
pub open spec fn is_for(c: Config, key: Seq<char>, p: CompactionPolicy) -> bool {
    c.global.contains(p) || exists|i: int|
        0 <= i < c.filtered.len() && regex_found((#[trigger] c.filtered[i]).filter, key)
            && c.filtered[i].policies.contains(p)
}

fn has_policy(v: &Vec<CompactionPolicy>, p: CompactionPolicy) -> (r: bool)
    ensures
        r == v@.contains(p),
{
    let mut i: usize = 0;
    while i < v.len()
        invariant
            i <= v@.len(),
            forall|j: int| 0 <= j < i ==> v@[j] != p,
        decreases v.len() - i,
    {
        if v[i] == p {
            assert(v@[i as int] == p);
            return true;
        }
        i += 1;
    }
    false
}

fn append_policies(v: &mut Vec<CompactionPolicy>, more: &Vec<CompactionPolicy>)
    ensures
        final(v)@ == old(v)@ + more@,
{
    let ghost start = v@;
    let mut i: usize = 0;
    while i < more.len()
        invariant
            i <= more@.len(),
            v@ == start + more@.take(i as int),
        decreases more.len() - i,
    {
        v.push(more[i]);
        assert(v@ =~= start + more@.take(i + 1));
        i += 1;
    }
    assert(more@.take(i as int) =~= more@);
}

/// Adds the policies of a list that are not there.
fn insert_policies(v: &mut Vec<CompactionPolicy>, more: &Vec<CompactionPolicy>)
    requires
        old(v)@.no_duplicates(),
    ensures
        final(v)@.no_duplicates(),
        forall|p: CompactionPolicy| #[trigger]
            final(v)@.contains(p) <==> old(v)@.contains(p) || more@.contains(p),
{
    let ghost start = v@;
    let mut i: usize = 0;
    while i < more.len()
        invariant
            i <= more@.len(),
            v@.no_duplicates(),
            forall|p: CompactionPolicy| #[trigger]
                v@.contains(p) <==> start.contains(p) || more@.take(i as int).contains(p),
        decreases more.len() - i,
    {
        let ghost before = v@;
        let ghost seen = more@.take(i as int);
        let ghost now = more@.take(i + 1);
        let p: CompactionPolicy = more[i];
        proof {
            assert(now =~= seen.push(p));
            assert forall|q: CompactionPolicy| #[trigger] now.contains(q) <==> seen.contains(q) || q
                == p by {
                if seen.contains(q) {
                    let k = choose|k: int| 0 <= k < seen.len() && seen[k] == q;
                    assert(now[k] == q);
                }
                assert(now[i as int] == p);
            }
        }
        if !has_policy(v, p) {
            v.push(p);
            proof {
                assert forall|q: CompactionPolicy| #[trigger] v@.contains(q) <==> before.contains(q)
                    || q == p by {
                    if before.contains(q) {
                        let k = choose|k: int| 0 <= k < before.len() && before[k] == q;
                        assert(v@[k] == q);
                    }
                    assert(v@[before.len() as int] == p);
                }
                assert forall|a: int, b: int|
                    0 <= a < v@.len() && 0 <= b < v@.len() && a != b implies v@[a] != v@[b] by {
                    if a < before.len() {
                        assert(before.contains(before[a]));
                    }
                    if b < before.len() {
                        assert(before.contains(before[b]));
                    }
                }
            }
        }
        i += 1;
    }
    assert(more@.take(i as int) =~= more@);
}

impl PolicyConfig {
    /// The policies, by the texts of the filters.
    pub open spec fn view(&self) -> Config {
        Config {
            filtered: self.filtered@.map_values(
                |g: FilteredPolicies|
                    FilterGroup { filter: g.filter@, policies: g.policies@ },
            ),
            global: self.global@,
        }
    }

    /// The compiled filters are those of the policies.
    pub open spec fn wf(&self) -> bool {
        self.filters.sources() == filter_texts(self@)
    }

    /// A configuration without policies.
    pub fn new() -> (r: Self)
        ensures
            r.wf(),
            r@.filtered.len() == 0,
            r@.global.len() == 0,
    {
        let r = PolicyConfig {
            filters: PatternSet::empty(),
            filtered: Vec::new(),
            global: Vec::new(),
        };
        assert(filter_texts(r@) =~= Seq::<Seq<char>>::empty());
        r
    }

    /// Whether there are neither policies nor filters.
    pub fn is_empty(&self) -> (r: bool)
        ensures
            r == (self@.filtered.len() == 0 && self@.global.len() == 0),
    {
        self.global.len() == 0 && self.filtered.len() == 0
    }

    /// Drops all policies.
    pub fn clear(&mut self)
        ensures
            final(self).wf(),
            final(self)@.filtered.len() == 0,
            final(self)@.global.len() == 0,
    {
        self.filters = PatternSet::empty();
        self.filtered = Vec::new();
        self.global = Vec::new();
        assert(filter_texts(self@) =~= Seq::<Seq<char>>::empty());
    }

    /// Adds policies, with what compiling the filters gave, where the filter is new.
    pub fn add_compiled(
        &mut self,
        policies: Vec<CompactionPolicy>,
        filter: Option<String>,
        compiled: Option<PatternSet>,
    ) -> (r: Result<(), PolicyError>)
        requires
            old(self).wf(),
            is_new_filter(old(self)@, filter_view(filter)) && compiled is Some
                ==> compiled->0.sources() == filter_texts(old(self)@).push(filter->0@),
        ensures
            final(self).wf(),
            match with_taken(old(self)@, policies@, filter_view(filter), compiled is Some) {
                Ok(c) => r is Ok && final(self)@ == c,
                Err(e) => r == Err::<(), PolicyError>(e) && final(self)@ == old(self)@,
            },
    {
        let ghost start = self@;
        match filter {
            None => {
                append_policies(&mut self.global, &policies);
                assert(filter_texts(self@) =~= filter_texts(start));
                Ok(())
            },
            Some(f) => {
                let at: usize = self.find_filter(f.as_str());
                if at >= self.filtered.len() {
                    let ghost text = f@;
                    match compiled {
                        Some(set) => {
                            self.filters = set;
                            self.filtered.push(FilteredPolicies { filter: f, policies });
                            proof {
                                assert(self@.filtered =~= start.filtered.push(
                                    FilterGroup { filter: text, policies: policies@ },
                                ));
                                assert(filter_texts(self@) =~= filter_texts(start).push(text));
                            }
                            return Ok(());
                        },
                        None => {
                            return Err(PolicyError::InvalidFilter);
                        },
                    }
                }
                let mut i: usize = 0;
                let ghost group = self.filtered@[at as int].policies@;
                while i < policies.len()
                    invariant
                        i <= policies@.len(),
                        at < self.filtered@.len(),
                        group == self.filtered@[at as int].policies@,
                        forall|j: int| 0 <= j < i ==> !group.contains(#[trigger] policies@[j]),
                        self@ == start,
                        self.wf(),
                        start.filtered[at as int].policies == group,
                        start.filtered[at as int].filter == f@,
                        at == filter_at(start.filtered, f@),
                        start == old(self)@,
                        filter matches Some(g) && g == f,
                    decreases policies.len() - i,
                {
                    if has_policy(&self.filtered[at].policies, policies[i]) {
                        assert(group.contains(policies@[i as int]));
                        return Err(PolicyError::DuplicatePolicy);
                    }
                    i += 1;
                }
                append_policies(&mut self.filtered[at].policies, &policies);
                proof {
                    assert(self@.filtered =~= start.filtered.update(
                        at as int,
                        FilterGroup { filter: f@, policies: group + policies@ },
                    ));
                    assert(filter_texts(self@) =~= filter_texts(start));
                }
                Ok(())
            },
        }
    }

    /// The texts of the filters, and one more.
    fn texts_with(&self, text: &str) -> (r: Vec<String>)
        ensures
            texts_view(r@) == filter_texts(self@).push(text@),
    {
        let mut out: Vec<String> = Vec::new();
        let mut i: usize = 0;
        while i < self.filtered.len()
            invariant
                i <= self.filtered@.len(),
                out@.len() == i,
                forall|k: int| 0 <= k < i ==> (#[trigger] out@[k])@ == self.filtered@[k].filter@,
            decreases self.filtered.len() - i,
        {
            out.push(self.filtered[i].filter.as_str().to_owned());
            i += 1;
        }
        out.push(text.to_owned());
        assert(texts_view(out@) =~= filter_texts(self@).push(text@));
        out
    }

    fn find_filter(&self, text: &str) -> (r: usize)
        ensures
            r == filter_at(self@.filtered, text@),
            r <= self.filtered@.len(),
            r < self.filtered@.len() ==> self.filtered@[r as int].filter@ == text@,
    {
        let mut i: usize = 0;
        while i < self.filtered.len()
            invariant
                i <= self.filtered@.len(),
                forall|j: int| 0 <= j < i ==> (#[trigger] self@.filtered[j]).filter != text@,
            decreases self.filtered.len() - i,
        {
            assert(self@.filtered[i as int].filter == self.filtered@[i as int].filter@);
            if text_equal(self.filtered[i].filter.as_str(), text) {
                proof {
                    lemma_filter_at(self@.filtered, text@, i as int);
                }
                return i;
            }
            i += 1;
        }
        proof {
            lemma_filter_at(self@.filtered, text@, i as int);
        }
        i
    }

    /// Adds policies. With a filter that is new all filters are compiled together; whether it is
    /// taken is up to the compiler of regular expressions.
    pub fn add_policies(&mut self, policies: Vec<CompactionPolicy>, filter: Option<String>) -> (r:
        Result<(), PolicyError>)
        requires
            old(self).wf(),
        ensures
            final(self).wf(),
            exists|taken: bool|
                match #[trigger] with_taken(old(self)@, policies@, filter_view(filter), taken) {
                    Ok(c) => r is Ok && final(self)@ == c,
                    Err(e) => r == Err::<(), PolicyError>(e) && final(self)@ == old(self)@,
                },
            r == Err::<(), PolicyError>(PolicyError::InvalidFilter) ==> filter is Some
                && are_refused(filter_texts(old(self)@).push(filter->0@)),
    {
        let compiled = match &filter {
            Some(text) => if self.find_filter(text.as_str()) >= self.filtered.len() {
                PatternSet::new(&self.texts_with(text.as_str()))
            } else {
                None
            },
            None => None,
        };
        let ghost taken = compiled is Some;
        let ghost tried = with_taken(self@, policies@, filter_view(filter), taken);
        self.add_compiled(policies, filter, compiled)
    }

    /// The policies for a key, each once, or nothing where there is none.
    pub fn match_policy(&self, key: &str) -> (r: Option<Vec<CompactionPolicy>>)
        requires
            self.wf(),
        ensures
            match r {
                Some(v) => {
                    &&& v@.len() > 0
                    &&& v@.no_duplicates()
                    &&& forall|p: CompactionPolicy| #[trigger]
                        v@.contains(p) <==> is_for(self@, key@, p)
                },
                None => forall|p: CompactionPolicy| !#[trigger] is_for(self@, key@, p),
            },
    {
        let mut v: Vec<CompactionPolicy> = Vec::new();
        insert_policies(&mut v, &self.global);
        let matched = self.filters.matches(key);
        let ghost texts = filter_texts(self@);
        let mut i: usize = 0;
        while i < matched.len()
            invariant
                i <= matched@.len(),
                self.wf(),
                texts == filter_texts(self@),
                forall|k: int|
                    0 <= k < matched@.len() ==> #[trigger] matched@[k] < texts.len() && regex_found(
                        texts[matched@[k] as int],
                        key@,
                    ),
                v@.no_duplicates(),
                forall|p: CompactionPolicy| #[trigger]
                    v@.contains(p) <==> self@.global.contains(p) || matched_first(
                        self@,
                        matched@,
                        p,
                        i as int,
                    ),
            decreases matched.len() - i,
        {
            let ghost before = v@;
            let at: usize = matched[i];
            assert(at < texts.len());
            insert_policies(&mut v, &self.filtered[at].policies);
            proof {
                assert(self@.filtered[at as int].policies == self.filtered@[at as int].policies@);
                assert forall|p: CompactionPolicy| #[trigger]
                    v@.contains(p) <==> self@.global.contains(p) || matched_first(
                        self@,
                        matched@,
                        p,
                        i + 1,
                    ) by {
                    assert(before.contains(p) <==> self@.global.contains(p) || matched_first(
                        self@,
                        matched@,
                        p,
                        i as int,
                    ));
                    if matched_first(self@, matched@, p, i as int) {
                        let k = choose|k: int|
                            0 <= k < i && self@.filtered[(#[trigger] matched@[k]) as int]
                                .policies.contains(p);
                        assert(self@.filtered[matched@[k] as int].policies.contains(p));
                    }
                    if self@.filtered[at as int].policies.contains(p) {
                        assert(matched@[i as int] == at);
                    }
                }
            }
            i += 1;
        }
        proof {
            assert forall|p: CompactionPolicy| #[trigger] v@.contains(p) <==> is_for(
                self@,
                key@,
                p,
            ) by {
                if matched_first(self@, matched@, p, i as int) {
                    let k = choose|k: int|
                        0 <= k < i && self@.filtered[(#[trigger] matched@[k]) as int]
                            .policies.contains(p);
                    let at = matched@[k] as int;
                    assert(texts[at] == self@.filtered[at].filter);
                    assert(regex_found(self@.filtered[at].filter, key@));
                }
                if exists|k: int|
                    0 <= k < self@.filtered.len() && regex_found(
                        (#[trigger] self@.filtered[k]).filter,
                        key@,
                    ) && self@.filtered[k].policies.contains(p) {
                    let k = choose|k: int|
                        0 <= k < self@.filtered.len() && regex_found(
                            (#[trigger] self@.filtered[k]).filter,
                            key@,
                        ) && self@.filtered[k].policies.contains(p);
                    assert(texts[k] == self@.filtered[k].filter);
                    assert(regex_found(self.filters.sources()[k], key@));
                    let m = choose|m: int| 0 <= m < matched@.len() && #[trigger] matched@[m] == k;
                    assert(self@.filtered[matched@[m] as int].policies.contains(p));
                }
            }
        }
        if v.len() == 0 {
            proof {
                assert forall|p: CompactionPolicy| !#[trigger] is_for(self@, key@, p) by {
                    assert(!v@.contains(p));
                }
            }
            None
        } else {
            Some(v)
        }
    }
}

/// Whether one of the first of some filters has a policy.
spec fn matched_first(c: Config, matched: Seq<usize>, p: CompactionPolicy, n: int) -> bool {
    exists|k: int|
        0 <= k < n && c.filtered[(#[trigger] matched[k]) as int].policies.contains(p)
}

/// A rule for a new series: the key of the destination, the rule, and the retention of the
/// destination. The rule names its aggregation; it has no destination yet.
#[derive(Debug, Clone, PartialEq, Eq)]
pub struct PolicyRule {
    pub key: String,
    pub rule: CompactionRule<AggregationType>,
    pub retention_ms: u64,
}

/// That a rule is that of a policy for a key.
pub open spec fn is_rule_of(r: PolicyRule, p: CompactionPolicy, key: Seq<char>) -> bool {
    &&& r.key@ == policy_key(p, key)
    &&& r.rule == (CompactionRule {
        dest_id: 0,
        aggregator: p.aggregator,
        bucket_duration: p.bucket_duration_ms,
        align_timestamp: p.bucket_alignment,
        bucket_start: None,
        has_samples: false,
    })
    &&& r.retention_ms == p.retention_ms
}

/// That rules are those of policies for a key: one for each key that a policy makes. Where two
/// policies make one key, either has its rule.
#[verifier::opaque]
pub open spec fn are_rules_of(v: Seq<PolicyRule>, ps: Seq<CompactionPolicy>, key: Seq<char>) -> bool {
    &&& forall|i: int, j: int|
        0 <= i < j < v.len() ==> (#[trigger] v[i]).key@ != (#[trigger] v[j]).key@
    &&& forall|i: int|
        0 <= i < v.len() ==> exists|k: int|
            0 <= k < ps.len() && is_rule_of(#[trigger] v[i], #[trigger] ps[k], key)
    &&& forall|k: int|
        0 <= k < ps.len() ==> exists|i: int|
            0 <= i < v.len() && (#[trigger] v[i]).key@ == policy_key(#[trigger] ps[k], key)
}

/// Where the rule with a key is in a list, or one past it.
fn find_rule_key(rules: &Vec<PolicyRule>, key: &str) -> (r: usize)
    ensures
        r <= rules@.len(),
        forall|j: int| 0 <= j < r ==> (#[trigger] rules@[j]).key@ != key@,
        r < rules@.len() ==> rules@[r as int].key@ == key@,
{
    let mut at: usize = 0;
    while at < rules.len()
        invariant
            at <= rules@.len(),
            forall|j: int| 0 <= j < at ==> (#[trigger] rules@[j]).key@ != key@,
        decreases rules.len() - at,
    {
        if text_equal(rules[at].key.as_str(), key) {
            return at;
        }
        at += 1;
    }
    at
}

/// That policies are those for a key, and there are any.
pub open spec fn are_all_for(c: Config, key: Seq<char>, ps: Seq<CompactionPolicy>) -> bool {
    &&& ps.len() > 0
    &&& forall|p: CompactionPolicy| #[trigger] ps.contains(p) <==> is_for(c, key, p)
}

impl PolicyConfig {
    /// The rules that a new series with a key gets.
    pub fn create_compaction_rules(&self, key: &str) -> (r: Option<Vec<PolicyRule>>)
        requires
            self.wf(),
        ensures
            match r {
                Some(v) => exists|ps: Seq<CompactionPolicy>| #[trigger]
                    are_all_for(self@, key@, ps) && are_rules_of(v@, ps, key@),
                None => forall|p: CompactionPolicy| !#[trigger] is_for(self@, key@, p),
            },
    {
        let policies = match self.match_policy(key) {
            Some(v) => v,
            None => {
                return None;
            },
        };
        assert(are_all_for(self@, key@, policies@));
        let mut rules: Vec<PolicyRule> = Vec::new();
        let mut k: usize = 0;
        assert(are_rules_of(rules@, policies@.take(0), key@)) by {
            reveal(are_rules_of);
        }
        while k < policies.len()
            invariant
                k <= policies@.len(),
                are_rules_of(rules@, policies@.take(k as int), key@),
            decreases policies.len() - k,
        {
            let p: CompactionPolicy = policies[k];
            let ghost seen = policies@.take(k as int);
            let ghost now = policies@.take(k + 1);
            let ghost before = rules@;
            assert(now =~= seen.push(p));
            assert(now[k as int] == p);
            let made = PolicyRule {
                key: p.format_key(key),
                rule: CompactionRule {
                    dest_id: 0,
                    aggregator: p.aggregator,
                    bucket_duration: p.bucket_duration_ms,
                    align_timestamp: p.bucket_alignment,
                    bucket_start: None,
                    has_samples: false,
                },
                retention_ms: p.retention_ms,
            };
            let ghost new = made;
            assert(is_rule_of(new, now[k as int], key@));
            let at: usize = find_rule_key(&rules, made.key.as_str());
            let found: bool = at < rules.len();
            if found {
                rules.set(at, made);
            } else {
                rules.push(made);
            }
            proof {
                lemma_rule_added(before, rules@, new, seen, p, key@, at as int, found);
                assert(now == seen.push(p));
            }
            k += 1;
        }
        assert(policies@.take(k as int) =~= policies@);
        Some(rules)
    }
}

proof fn lemma_rule_added(
    before: Seq<PolicyRule>,
    after: Seq<PolicyRule>,
    new: PolicyRule,
    seen: Seq<CompactionPolicy>,
    p: CompactionPolicy,
    key: Seq<char>,
    at: int,
    found: bool,
)
    requires
        are_rules_of(before, seen, key),
        is_rule_of(new, p, key),
        0 <= at <= before.len(),
        forall|j: int| 0 <= j < at ==> (#[trigger] before[j]).key@ != new.key@,
        found ==> at < before.len() && before[at].key@ == new.key@ && after == before.update(
            at,
            new,
        ),
        !found ==> at == before.len() && after == before.push(new),
    ensures
        are_rules_of(after, seen.push(p), key),
{
    reveal(are_rules_of);
    let now = seen.push(p);
    assert(now[seen.len() as int] == p);
    assert(after[at] == new);
    assert forall|i: int, j: int| 0 <= i < j < after.len() implies (#[trigger] after[i]).key@ != (
    #[trigger] after[j]).key@ by {
        if i != at {
            assert(after[i] == before[i]);
        }
        if j != at {
            assert(after[j] == before[j]);
        }
        if i == at && j != at {
            assert(before[at].key@ != before[j].key@);
        }
    }
    assert forall|i: int| 0 <= i < after.len() implies exists|k: int|
        0 <= k < now.len() && is_rule_of(#[trigger] after[i], #[trigger] now[k], key) by {
        if i == at {
            assert(is_rule_of(after[i], now[seen.len() as int], key));
        } else {
            assert(after[i] == before[i]);
            let k = choose|k: int|
                0 <= k < seen.len() && is_rule_of(before[i], #[trigger] seen[k], key);
            assert(now[k] == seen[k]);
            assert(is_rule_of(after[i], now[k], key));
        }
    }
    assert forall|k: int| 0 <= k < now.len() implies exists|i: int|
        0 <= i < after.len() && (#[trigger] after[i]).key@ == policy_key(
            #[trigger] now[k],
            key,
        ) by {
        if k < seen.len() {
            assert(now[k] == seen[k]);
            let i = choose|i: int|
                0 <= i < before.len() && (#[trigger] before[i]).key@ == policy_key(seen[k], key);
            if i != at {
                assert(after[i] == before[i]);
                assert(after[i].key@ == policy_key(now[k], key));
            } else {
                assert(after[at].key@ == policy_key(now[k], key));
            }
        } else {
            assert(after[at].key@ == policy_key(now[k], key));
        }
    }
}

/// Policies of a configuration that have the same filter.
#[derive(Debug)]
pub struct PolicyGroup {
    pub filter: Option<String>,
    pub policies: Vec<CompactionPolicy>,
}

/// Policies that have the same filter, by its text.
pub ghost struct Group {
    pub filter: Option<Seq<char>>,
    pub policies: Seq<CompactionPolicy>,
}

impl PolicyGroup {
    /// The group, by the text of its filter.
    pub open spec fn view(&self) -> Group {
        Group {
            filter: match self.filter {
                Some(f) => Some(f@),
                None => None,
            },
            policies: self.policies@,
        }
    }
}

/// The groups of a list.
pub open spec fn groups_view(v: Seq<PolicyGroup>) -> Seq<Group> {
    v.map_values(|g: PolicyGroup| g@)
}

/// Where the group with a filter is in a list, or one past it.
pub open spec fn group_at(groups: Seq<Group>, filter: Option<Seq<char>>) -> int
    decreases groups.len(),
{
    if groups.len() == 0 {
        0
    } else if groups[0].filter == filter {
        0
    } else {
        1 + group_at(groups.skip(1), filter)
    }
}

proof fn lemma_group_at(groups: Seq<Group>, filter: Option<Seq<char>>, at: int)
    requires
        0 <= at <= groups.len(),
        forall|i: int| 0 <= i < at ==> (#[trigger] groups[i]).filter != filter,
        at < groups.len() ==> groups[at].filter == filter,
    ensures
        group_at(groups, filter) == at,
    decreases groups.len(),
{
    if groups.len() > 0 && at > 0 {
        assert(groups[0].filter != filter);
        let more = groups.skip(1);
        assert forall|i: int| 0 <= i < at - 1 implies (#[trigger] more[i]).filter != filter by {
            assert(more[i] == groups[i + 1]);
        }
        lemma_group_at(more, filter, at - 1);
    }
}

/// The policies of a configuration by their filters, in the order in which filters first come.
pub open spec fn grouped(list: Seq<Entry>) -> Seq<Group>
    decreases list.len(),
{
    if list.len() == 0 {
        Seq::empty()
    } else {
        let before = grouped(list.drop_last());
        let e = list.last();
        let at = group_at(before, e.filter);
        if at < before.len() {
            before.update(
                at,
                Group { filter: e.filter, policies: before[at].policies.push(e.policy) },
            )
        } else {
            before.push(Group { filter: e.filter, policies: seq![e.policy] })
        }
    }
}

/// A configuration with groups of policies added one after the other, up to the first that it
/// cannot have. `taken` tells of each whether its filter is taken, where it is new.
pub open spec fn with_groups(c: Config, groups: Seq<Group>, taken: Seq<bool>) -> (
    Config,
    Option<PolicyError>,
)
    decreases groups.len(),
{
    if groups.len() == 0 {
        (c, None)
    } else {
        let (d, e) = with_groups(c, groups.drop_last(), taken);
        if e is Some {
            (d, e)
        } else {
            match with_taken(
                d,
                groups.last().policies,
                groups.last().filter,
                taken[groups.len() - 1],
            ) {
                Ok(x) => (x, None),
                Err(e) => (d, Some(e)),
            }
        }
    }
}

/// What a configuration becomes when a text is added to it, given what the text was read as and
/// which new filters are taken.
pub open spec fn configured(
    c: Config,
    parsed: Result<Seq<Entry>, PolicyError>,
    replace: bool,
    taken: Seq<bool>,
) -> (Config, Option<PolicyError>) {
    match parsed {
        Err(e) => (c, Some(e)),
        Ok(list) => with_groups(
            if replace {
                Config { filtered: Seq::empty(), global: Seq::empty() }
            } else {
                c
            },
            grouped(list),
            taken,
        ),
    }
}

/// A configuration that could not have the filter of one of the entries: the filter did not compile
/// together with those that the configuration has.
pub open spec fn stops_at_filter(c: Config, list: Seq<Entry>) -> bool {
    exists|i: int|
        {
            &&& 0 <= i < grouped(list).len()
            &&& (#[trigger] grouped(list)[i]).filter is Some
            &&& are_refused(filter_texts(c).push(grouped(list)[i].filter->0))
        }
}

/// Puts the policies with the same filter together.
fn group_entries(entries: Vec<PolicyEntry>) -> (r: Vec<PolicyGroup>)
    ensures
        groups_view(r@) == grouped(entries_view(entries@)),
{
    let ghost all = entries@;
    let n: usize = entries.len();
    let mut rest: Vec<PolicyEntry> = entries;
    let mut out: Vec<PolicyGroup> = Vec::new();
    let mut i: usize = 0;
    proof {
        assert(all.skip(0) =~= all);
        assert(entries_view(all.take(0)) =~= Seq::<Entry>::empty());
        assert(groups_view(out@) =~= Seq::<Group>::empty());
    }
    while i < n
        invariant
            i <= n,
            n == all.len(),
            rest@ == all.skip(i as int),
            groups_view(out@) == grouped(entries_view(all.take(i as int))),
        decreases n - i,
    {
        let ghost before = out@;
        let entry = rest.remove(0);
        proof {
            assert(entry == all[i as int]);
            assert(rest@ =~= all.skip(i + 1));
            let list = entries_view(all.take(i + 1));
            assert(list.drop_last() =~= entries_view(all.take(i as int)));
            assert(list.last() == entry@);
        }
        let ghost e = entry@;
        let at: usize = find_group(&out, &entry.filter);
        if at < out.len() {
            out[at].policies.push(entry.policy);
            proof {
                assert(groups_view(out@) =~= groups_view(before).update(
                    at as int,
                    Group {
                        filter: e.filter,
                        policies: groups_view(before)[at as int].policies.push(e.policy),
                    },
                ));
            }
        } else {
            let mut policies: Vec<CompactionPolicy> = Vec::new();
            policies.push(entry.policy);
            assert(policies@ =~= seq![e.policy]);
            out.push(PolicyGroup { filter: entry.filter, policies });
            proof {
                assert(groups_view(out@) =~= groups_view(before).push(
                    Group { filter: e.filter, policies: seq![e.policy] },
                ));
            }
        }
        i += 1;
    }
    assert(all.take(i as int) =~= all);
    out
}

/// The text of a filter.
pub open spec fn filter_view(f: Option<String>) -> Option<Seq<char>> {
    match f {
        Some(f) => Some(f@),
        None => None,
    }
}

fn find_group(groups: &Vec<PolicyGroup>, filter: &Option<String>) -> (r: usize)
    ensures
        r == group_at(groups_view(groups@), filter_view(*filter)),
        r <= groups@.len(),
        r < groups@.len() ==> groups_view(groups@)[r as int].filter == filter_view(*filter),
{
    let mut i: usize = 0;
    while i < groups.len()
        invariant
            i <= groups@.len(),
            forall|j: int|
                0 <= j < i ==> (#[trigger] groups_view(groups@)[j]).filter != filter_view(*filter),
        decreases groups.len() - i,
    {
        let same: bool = match (&groups[i].filter, filter) {
            (Some(a), Some(b)) => text_equal(a.as_str(), b.as_str()),
            (None, None) => true,
            _ => false,
        };
        assert(groups_view(groups@)[i as int] == groups@[i as int]@);
        if same {
            proof {
                lemma_group_at(groups_view(groups@), filter_view(*filter), i as int);
            }
            return i;
        }
        i += 1;
    }
    proof {
        lemma_group_at(groups_view(groups@), filter_view(*filter), i as int);
    }
    i
}

impl PolicyConfig {
    /// Adds the policies of a text to the configuration, or puts them in place of those that it
    /// has. A text that cannot be read changes nothing.
    pub fn add_policies_from_config(&mut self, config_value: &str, replace: bool) -> (r: Result<
        (),
        PolicyError,
    >)
        requires
            old(self).wf(),
        ensures
            final(self).wf(),
            exists|parsed: Result<Seq<Entry>, PolicyError>, taken: Seq<bool>|
                {
                    &&& is_list_read(config_value@, parsed)
                    &&& final(self)@ == (#[trigger] configured(old(self)@, parsed, replace, taken)).0
                    &&& match configured(old(self)@, parsed, replace, taken).1 {
                        Some(e) => r == Err::<(), PolicyError>(e),
                        None => r is Ok,
                    }
                    &&& parsed is Ok && r == Err::<(), PolicyError>(PolicyError::InvalidFilter)
                        ==> stops_at_filter(final(self)@, parsed->Ok_0)
                },
    {
        let entries = match parse_compaction_policies(config_value) {
            Ok(entries) => entries,
            Err(e) => {
                let ghost outcome = configured(
                    self@,
                    Err::<Seq<Entry>, PolicyError>(e),
                    replace,
                    Seq::<bool>::empty(),
                );
                return Err(e);
            },
        };
        let ghost list = entries_view(entries@);
        assert(is_list_read(config_value@, Ok::<Seq<Entry>, PolicyError>(list)));
        let groups = group_entries(entries);
        if replace {
            self.clear();
        }
        let ghost all = groups@;
        let ghost start = self@;
        proof {
            if replace {
                assert(start.filtered =~= Seq::<FilterGroup>::empty());
                assert(start.global =~= Seq::<CompactionPolicy>::empty());
            }
            assert forall|taken: Seq<bool>| #[trigger]
                configured(old(self)@, Ok::<Seq<Entry>, PolicyError>(list), replace, taken)
                == with_groups(start, groups_view(all), taken) by {}
        }
        let n: usize = groups.len();
        let mut rest: Vec<PolicyGroup> = groups;
        let mut i: usize = 0;
        let ghost mut taken: Seq<bool> = Seq::empty();
        proof {
            assert(all.skip(0) =~= all);
            assert(groups_view(all.take(0)) =~= Seq::<Group>::empty());
        }
        while i < n
            invariant
                i <= n,
                n == all.len(),
                self.wf(),
                rest@ == all.skip(i as int),
                groups_view(all) == grouped(list),
                taken.len() == i,
                with_groups(start, groups_view(all.take(i as int)), taken) == (
                    self@,
                    None::<PolicyError>,
                ),
                forall|t: Seq<bool>| #[trigger]
                    configured(old(self)@, Ok::<Seq<Entry>, PolicyError>(list), replace, t)
                        == with_groups(start, groups_view(all), t),
                is_list_read(config_value@, Ok::<Seq<Entry>, PolicyError>(list)),
            decreases n - i,
        {
            let group = rest.remove(0);
            proof {
                assert(group == all[i as int]);
                assert(rest@ =~= all.skip(i + 1));
                let now = groups_view(all.take(i + 1));
                assert(now.drop_last() =~= groups_view(all.take(i as int)));
                assert(now.last() == group@);
            }
            let ghost before = self@;
            let ghost g = group@;
            let outcome = self.add_policies(group.policies, group.filter);
            proof {
                let chosen = choose|taken: bool|
                    match #[trigger] with_taken(before, g.policies, g.filter, taken) {
                        Ok(c) => outcome is Ok && self@ == c,
                        Err(e) => outcome == Err::<(), PolicyError>(e) && self@ == before,
                    };
                lemma_taken_prefix(start, groups_view(all.take(i as int)), taken, chosen);
                taken = taken.push(chosen);
            }
            match outcome {
                Ok(_) => {},
                Err(e) => {
                    proof {
                        assert(groups_view(all).take(i + 1) =~= groups_view(all.take(i + 1)));
                        lemma_stops(start, groups_view(all), i + 1, taken);
                        assert(grouped(list)[i as int] == g);
                        assert(configured(
                            old(self)@,
                            Ok::<Seq<Entry>, PolicyError>(list),
                            replace,
                            taken,
                        ) == with_groups(start, groups_view(all), taken));
                    }
                    return Err(e);
                },
            }
            i += 1;
        }
        proof {
            assert(all.take(i as int) =~= all);
            assert(configured(old(self)@, Ok::<Seq<Entry>, PolicyError>(list), replace, taken)
                == with_groups(start, groups_view(all), taken));
        }
        Ok(())
    }
}

/// What is taken later does not matter for the first groups.
proof fn lemma_taken_prefix(c: Config, groups: Seq<Group>, taken: Seq<bool>, more: bool)
    requires
        groups.len() <= taken.len(),
    ensures
        with_groups(c, groups, taken.push(more)) == with_groups(c, groups, taken),
    decreases groups.len(),
{
    if groups.len() > 0 {
        lemma_taken_prefix(c, groups.drop_last(), taken, more);
        assert(taken.push(more)[groups.len() - 1] == taken[groups.len() - 1]);
    }
}

/// Once a group cannot be added, no further one is.
proof fn lemma_stops(c: Config, groups: Seq<Group>, n: int, taken: Seq<bool>)
    requires
        0 <= n <= groups.len(),
        with_groups(c, groups.take(n), taken).1 is Some,
    ensures
        with_groups(c, groups, taken) == with_groups(c, groups.take(n), taken),
    decreases groups.len(),
{
    if n < groups.len() {
        let less = groups.drop_last();
        assert(less.take(n) =~= groups.take(n));
        lemma_stops(c, less, n, taken);
    } else {
        assert(groups.take(n) =~= groups);
    }
}

impl Default for PolicyConfig {
    fn default() -> (r: Self)
        ensures
            r.wf(),
            r@.filtered.len() == 0,
            r@.global.len() == 0,
    {
        Self::new()
    }
}

/// Whether a policy is new to a list.
pub fn check_duplicate_policy(policies: &Vec<CompactionPolicy>, new_policy: &CompactionPolicy) -> (r:
    Result<(), PolicyError>)
    ensures
        r is Ok <==> !policies@.contains(*new_policy),
        r is Err ==> r->Err_0 == PolicyError::DuplicatePolicy,
{
    if has_policy(policies, *new_policy) {
        Err(PolicyError::DuplicatePolicy)
    } else {
        Ok(())
    }
}

/// Adds the policies of a text to a configuration.
pub fn add_compaction_policies_from_config(
    config: &mut PolicyConfig,
    config_value: &str,
    replace: bool,
) -> (r: Result<(), PolicyError>)
    requires
        old(config).wf(),
    ensures
        final(config).wf(),
        exists|parsed: Result<Seq<Entry>, PolicyError>, taken: Seq<bool>|
            {
                &&& is_list_read(config_value@, parsed)
                &&& final(config)@ == (#[trigger] configured(old(config)@, parsed, replace, taken)).0
                &&& match configured(old(config)@, parsed, replace, taken).1 {
                    Some(e) => r == Err::<(), PolicyError>(e),
                    None => r is Ok,
                }
                &&& parsed is Ok && r == Err::<(), PolicyError>(PolicyError::InvalidFilter)
                    ==> stops_at_filter(final(config)@, parsed->Ok_0)
            },
{
    config.add_policies_from_config(config_value, replace)
}

/// Drops all policies of a configuration.
pub fn clear_compaction_policy_config(config: &mut PolicyConfig)
    ensures
        final(config).wf(),
        final(config)@.filtered.len() == 0,
        final(config)@.global.len() == 0,
{
    config.clear();
}

/// The rules that a new series with a key gets.
pub fn create_compaction_rules_from_config(config: &PolicyConfig, series_key: &str) -> (r: Option<
    Vec<PolicyRule>,
>)
    requires
        config.wf(),
    ensures
        match r {
            Some(v) => exists|ps: Seq<CompactionPolicy>| #[trigger]
                are_all_for(config@, series_key@, ps) && are_rules_of(v@, ps, series_key@),
            None => forall|p: CompactionPolicy| !#[trigger] is_for(config@, series_key@, p),
        },
{
    config.create_compaction_rules(series_key)
}

} // verus!
