use vstd::prelude::*;

verus! {

/// One step of a linear migration. `Upgrade(i)` moves a value from the
/// version at position `i` to the one at `i + 1`; `Downgrade(i)` moves it from
/// position `i + 1` back to `i`.
#[derive(PartialEq, Eq, Structural, Clone, Copy, Debug)]
pub enum MigrationStep {
    Upgrade(usize),
    Downgrade(usize),
}

/// How values move between the registered versions of one extension.
pub enum MigrationStrategy {
    /// Exactly one version is registered, and no value is ever adapted.
    NoMigration,
    /// The versions form one chain; `downgrades[i]` says whether a value can
    /// be moved from position `i + 1` back to position `i`.
    Linear { downgrades: Vec<bool> },
}

/// Why a registration was refused.
#[derive(PartialEq, Eq, Structural, Clone, Copy, Debug)]
pub enum RegistrationError {
    /// No version was given.
    NoVersions,
    /// The version at the second position repeats the tag of the first.
    DuplicateVersion(usize, usize),
    /// A linear chain must say, for each adjacent pair, whether it can be
    /// walked back.
    DowngradeCount,
}

/// Why a value could not be brought to the wanted version.
#[derive(Debug)]
pub enum MigrationError {
    /// The tag was never registered by this extension.
    UnknownVersion { version: String },
    /// The chain offers no step from one version to the next one on the path.
    UnsupportedMigration { from: String, to: String },
    /// A step function failed; `reached` is the last version the value got to.
    StepFailed { reached: String, cause: String },
}

/// The model of a `MigrationError`.
pub enum MigrationErrorView {
    UnknownVersion { version: Seq<char> },
    UnsupportedMigration { from: Seq<char>, to: Seq<char> },
    StepFailed { reached: Seq<char>, cause: Seq<char> },
}

impl View for MigrationError {
    type V = MigrationErrorView;

    open spec fn view(&self) -> MigrationErrorView {
        match self {
            MigrationError::UnknownVersion { version } => MigrationErrorView::UnknownVersion {
                version: version@,
            },
            MigrationError::UnsupportedMigration { from, to } =>
                MigrationErrorView::UnsupportedMigration { from: from@, to: to@ },
            MigrationError::StepFailed { reached, cause } => MigrationErrorView::StepFailed {
                reached: reached@,
                cause: cause@,
            },
        }
    }
}

/// The identity of one configuration domain: its name, its versions in
/// registration order, and how values move between them.
pub struct ExtensionDescriptor {
    name: String,
    versions: Vec<String>,
    strategy: MigrationStrategy,
}

/// The tags of `vs`, in order.
pub open spec fn tags(vs: Seq<String>) -> Seq<Seq<char>> {
    vs.map_values(|v: String| v@)
}

/// No two versions share a tag.
pub open spec fn tags_unique(ts: Seq<Seq<char>>) -> bool {
    forall|i: int, j: int| 0 <= i < j < ts.len() ==> ts[i] != ts[j]
}

/// The position of `tag` among `ts`.
pub open spec fn version_position(ts: Seq<Seq<char>>, tag: Seq<char>) -> Option<int> {
    if exists|i: int| 0 <= i < ts.len() && ts[i] == tag {
        Some(choose|i: int| 0 <= i < ts.len() && ts[i] == tag)
    } else {
        None
    }
}

/// The upgrades from position `s` to position `t`, in order.
pub open spec fn upgrade_path(s: int, t: int) -> Seq<MigrationStep> {
    Seq::new((t - s) as nat, |k: int| MigrationStep::Upgrade((s + k) as usize))
}

/// The downgrades from position `s` to position `t`, in order.
pub open spec fn downgrade_path(s: int, t: int) -> Seq<MigrationStep> {
    Seq::new((s - t) as nat, |k: int| MigrationStep::Downgrade((s - 1 - k) as usize))
}

/// Going down from position `s` to `t`, the first step met that cannot be
/// walked back (its lower position), if any.
pub open spec fn first_missing_downgrade(downgrades: Seq<bool>, s: int, t: int) -> Option<int>
    decreases s - t,
{
    if s <= t {
        None
    } else if !downgrades[s - 1] {
        Some(s - 1)
    } else {
        first_missing_downgrade(downgrades, s - 1, t)
    }
}

/// The model of a migration strategy: `None` for no migration, else the
/// downgrades that a linear chain offers.
pub open spec fn strategy_view(m: MigrationStrategy) -> Option<Seq<bool>> {
    match m {
        MigrationStrategy::NoMigration => None,
        MigrationStrategy::Linear { downgrades } => Some(downgrades@),
    }
}

/// The steps that bring a value from version `from` to version `to`, or why
/// there are none.
pub open spec fn migration_plan(
    ts: Seq<Seq<char>>,
    strategy: Option<Seq<bool>>,
    from: Seq<char>,
    to: Seq<char>,
) -> Result<Seq<MigrationStep>, MigrationErrorView> {
    match (version_position(ts, from), version_position(ts, to)) {
        (None, _) => Err(MigrationErrorView::UnknownVersion { version: from }),
        (_, None) => Err(MigrationErrorView::UnknownVersion { version: to }),
        (Some(s), Some(t)) => if s == t {
            Ok(Seq::empty())
        } else if s < t {
            Ok(upgrade_path(s, t))
        } else {
            match first_missing_downgrade(strategy.unwrap_or(Seq::empty()), s, t) {
                Some(k) => Err(MigrationErrorView::UnsupportedMigration { from: ts[k + 1], to: ts[k] }),
                None => Ok(downgrade_path(s, t)),
            }
        },
    }
}

/// The position a value has reached once `step` was applied to it.
pub open spec fn position_after(step: MigrationStep) -> int {
    match step {
        MigrationStep::Upgrade(i) => i + 1,
        MigrationStep::Downgrade(i) => i as int,
    }
}

/// The tag of the version a value has reached after the first `k` steps of
/// `steps`, having started at `from`.
pub open spec fn reached_tag(ts: Seq<Seq<char>>, steps: Seq<MigrationStep>, from: Seq<char>, k: int) -> Seq<char> {
    if k == 0 {
        from
    } else {
        ts[position_after(steps[k - 1])]
    }
}

/// `vals` are the values that `f` produces along `steps` from `vals[0]`.
pub open spec fn runs_along<V, F: Fn(MigrationStep, V) -> Result<V, String>>(
    f: F,
    steps: Seq<MigrationStep>,
    vals: Seq<V>,
) -> bool {
    &&& vals.len() == steps.len() + 1
    &&& forall|k: int| 0 <= k < steps.len() ==> f.ensures((steps[k], vals[k]), Ok(vals[k + 1]))
}

impl ExtensionDescriptor {
    pub closed spec fn extension_name(&self) -> Seq<char> {
        self.name@
    }

    pub closed spec fn version_tags(&self) -> Seq<Seq<char>> {
        tags(self.versions@)
    }

    pub closed spec fn strategy(&self) -> Option<Seq<bool>> {
        strategy_view(self.strategy)
    }

    pub open spec fn wf(&self) -> bool {
        &&& self.version_tags().len() >= 1
        &&& tags_unique(self.version_tags())
        &&& match self.strategy() {
            None => self.version_tags().len() == 1,
            Some(d) => d.len() == self.version_tags().len() - 1,
        }
    }

    /// An extension with a single version, whose stored values are never
    /// adapted.
    pub fn no_migration(name: String, version: String) -> (r: Self)
        ensures
            r.wf(),
            r.extension_name() == name@,
            r.version_tags() == seq![version@],
            r.strategy() is None,
    {
        let versions = vec![version];
        let r = ExtensionDescriptor { name, versions, strategy: MigrationStrategy::NoMigration };
        assert(r.version_tags() =~= seq![r.versions@[0]@]);
        r
    }

    /// An extension whose versions form one chain, oldest first;
    /// `downgrades[i]` says whether the step from the version at `i + 1` back
    /// to the one at `i` exists.
    pub fn linear(name: String, versions: Vec<String>, downgrades: Vec<bool>) -> (r: Result<
        Self,
        RegistrationError,
    >)
        ensures
            versions@.len() == 0 ==> r == Err::<Self, _>(RegistrationError::NoVersions),
            versions@.len() > 0 && !tags_unique(tags(versions@)) ==> (r matches Err(
                RegistrationError::DuplicateVersion(i, j),
            ) && i < j < versions@.len() && versions@[i as int]@ == versions@[j as int]@),
            versions@.len() > 0 && tags_unique(tags(versions@)) && downgrades@.len() + 1
                != versions@.len() ==> r == Err::<Self, _>(RegistrationError::DowngradeCount),
            r matches Ok(d) ==> {
                &&& d.wf()
                &&& d.extension_name() == name@
                &&& d.version_tags() == tags(versions@)
                &&& d.strategy() == Some(downgrades@)
            },
            versions@.len() > 0 && tags_unique(tags(versions@)) && downgrades@.len() + 1
                == versions@.len() ==> r is Ok,
    {
        if versions.len() == 0 {
            return Err(RegistrationError::NoVersions);
        }
        let n = versions.len();
        let mut j: usize = 1;
        while j < n
            invariant
                n == versions@.len(),
                1 <= j <= n,
                tags_unique(tags(versions@.subrange(0, j as int))),
            decreases n - j,
        {
            let mut i: usize = 0;
            while i < j
                invariant
                    n == versions@.len(),
                    i <= j < n,
                    forall|k: int| 0 <= k < i ==> versions@[k]@ != versions@[j as int]@,
                decreases j - i,
            {
                if versions[i] == versions[j] {
                    proof {
                        let ts = tags(versions@);
                        assert(ts[i as int] == ts[j as int]);
                    }
                    return Err(RegistrationError::DuplicateVersion(i, j));
                }
                i = i + 1;
            }
            proof {
                let ts = tags(versions@.subrange(0, j + 1));
                let ts0 = tags(versions@.subrange(0, j as int));
                assert forall|a: int, b: int| 0 <= a < b < ts.len() implies ts[a] != ts[b] by {
                    if b < j {
                        assert(ts[a] == ts0[a] && ts[b] == ts0[b]);
                    }
                }
            }
            j = j + 1;
        }
        assert(versions@.subrange(0, n as int) =~= versions@);
        if downgrades.len() != n - 1 {
            return Err(RegistrationError::DowngradeCount);
        }
        Ok(ExtensionDescriptor {
            name,
            versions,
            strategy: MigrationStrategy::Linear { downgrades },
        })
    }

    /// The extension's name.
    pub fn name(&self) -> (r: &String)
        ensures
            r@ == self.extension_name(),
    {
        &self.name
    }

    /// The registered version tags, oldest first.
    pub fn versions(&self) -> (r: &Vec<String>)
        ensures
            tags(r@) == self.version_tags(),
    {
        &self.versions
    }

    /// The position of `tag` among the registered versions.
    pub fn position_of(&self, tag: &String) -> (r: Option<usize>)
        requires
            self.wf(),
        ensures
            r matches Some(i) ==> version_position(self.version_tags(), tag@) == Some(i as int),
            r is None ==> version_position(self.version_tags(), tag@) is None,
            r matches Some(i) ==> i < self.version_tags().len(),
    {
        let ghost ts = self.version_tags();
        let mut i: usize = 0;
        while i < self.versions.len()
            invariant
                self.wf(),
                ts == tags(self.versions@),
                i <= self.versions@.len(),
                forall|k: int| 0 <= k < i ==> ts[k] != tag@,
            decreases self.versions@.len() - i,
        {
            if self.versions[i] == *tag {
                proof {
                    assert(ts[i as int] == tag@);
                    let c = choose|c: int| 0 <= c < ts.len() && ts[c] == tag@;
                    if c != i {
                        assert(tags_unique(ts));
                    }
                }
                return Some(i);
            }
            i = i + 1;
        }
        None
    }

    /// The steps that bring a value stored under version `from` to version
    /// `to`: none when the two agree, the upgrades between them in ascending
    /// order when `from` is older, and the downgrades in descending order when
    /// it is newer. A tag that was never registered, or a downgrade that the
    /// chain does not offer, is an error.
    pub fn plan(&self, from: &String, to: &String) -> (r: Result<Vec<MigrationStep>, MigrationError>)
        requires
            self.wf(),
        ensures
            match (r, migration_plan(self.version_tags(), self.strategy(), from@, to@)) {
                (Ok(steps), Ok(p)) => steps@ == p,
                (Err(e), Err(p)) => e@ == p,
                _ => false,
            },
    {
        let s = match self.position_of(from) {
            Some(s) => s,
            None => {
                return Err(MigrationError::UnknownVersion { version: from.clone() });
            },
        };
        let t = match self.position_of(to) {
            Some(t) => t,
            None => {
                return Err(MigrationError::UnknownVersion { version: to.clone() });
            },
        };
        let mut steps: Vec<MigrationStep> = Vec::new();
        if s <= t {
            let mut k: usize = s;
            while k < t
                invariant
                    s <= k <= t,
                    steps@ =~= upgrade_path(s as int, k as int),
                decreases t - k,
            {
                steps.push(MigrationStep::Upgrade(k));
                k = k + 1;
            }
            return Ok(steps);
        }
        let ghost ts = self.version_tags();
        let ghost dg = self.strategy().unwrap_or(Seq::empty());
        let mut k: usize = s;
        while k > t
            invariant
                t < s < ts.len(),
                t <= k <= s,
                self.wf(),
                ts == self.version_tags(),
                version_position(ts, from@) == Some(s as int),
                version_position(ts, to@) == Some(t as int),
                dg == self.strategy().unwrap_or(Seq::empty()),
                first_missing_downgrade(dg, s as int, t as int) == first_missing_downgrade(
                    dg,
                    k as int,
                    t as int,
                ),
                steps@ =~= downgrade_path(s as int, k as int),
            decreases k,
        {
            let allowed = match &self.strategy {
                MigrationStrategy::NoMigration => false,
                MigrationStrategy::Linear { downgrades } => downgrades[k - 1],
            };
            if !allowed {
                proof {
                    assert(self.strategy() is Some);
                    assert(!dg[k - 1]);
                    assert(first_missing_downgrade(dg, k as int, t as int) == Some(k - 1));
                    assert(tags(self.versions@)[k as int] == self.versions@[k as int]@);
                    assert(tags(self.versions@)[k - 1] == self.versions@[k - 1]@);
                }
                return Err(
                    MigrationError::UnsupportedMigration {
                        from: self.versions[k].clone(),
                        to: self.versions[k - 1].clone(),
                    },
                );
            }
            steps.push(MigrationStep::Downgrade(k - 1));
            k = k - 1;
        }
        Ok(steps)
    }

    /// Brings `value`, stored under version `from`, to version `to` by
    /// handing each step of the plan, in order, to `step`. The first step that
    /// fails stops the migration, which then reports the version the value had
    /// reached.
    pub fn migrate<V, F: Fn(MigrationStep, V) -> Result<V, String>>(
        &self,
        from: &String,
        to: &String,
        value: V,
        step: F,
    ) -> (r: Result<V, MigrationError>)
        requires
            self.wf(),
            forall|s: MigrationStep, v: V| step.requires((s, v)),
        ensures
            migration_plan(self.version_tags(), self.strategy(), from@, to@) matches Err(e) ==> (
            r matches Err(x) && x@ == e),
            migration_plan(self.version_tags(), self.strategy(), from@, to@) matches Ok(p) ==> (
            match r {
                Ok(v) => exists|vals: Seq<V>|
                    #![auto]
                    runs_along(step, p, vals) && vals[0] == value && vals.last() == v,
                Err(MigrationError::StepFailed { reached, cause }) => exists|vals: Seq<V>, k: int|
                    #![auto]
                    0 <= k < p.len() && runs_along(step, p.take(k), vals) && vals[0] == value
                        && step.ensures((p[k], vals[k]), Err(cause)) && reached@ == reached_tag(
                        self.version_tags(),
                        p,
                        from@,
                        k,
                    ),
                Err(_) => false,
            }),
    {
        let steps = match self.plan(from, to) {
            Ok(steps) => steps,
            Err(e) => {
                return Err(e);
            },
        };
        let ghost p = steps@;
        let ghost ts = self.version_tags();
        let ghost mut vals: Seq<V> = seq![value];
        let mut cur = value;
        let mut k: usize = 0;
        while k < steps.len()
            invariant
                self.wf(),
                ts == self.version_tags(),
                p == steps@,
                migration_plan(ts, self.strategy(), from@, to@) == Ok::<_, MigrationErrorView>(p),
                forall|s: MigrationStep, v: V| step.requires((s, v)),
                k <= steps@.len(),
                runs_along(step, p.take(k as int), vals),
                vals[0] == value,
                vals.last() == cur,
            decreases steps@.len() - k,
        {
            let s = steps[k];
            match step(s, cur) {
                Ok(next) => {
                    proof {
                        let vals1 = vals.push(next);
                        assert forall|j: int| 0 <= j < k + 1 implies step.ensures(
                            (#[trigger] p.take(k + 1)[j], vals1[j]),
                            Ok(vals1[j + 1]),
                        ) by {
                            if j < k {
                                assert(p.take(k + 1)[j] == p.take(k as int)[j]);
                            }
                        }
                        vals = vals1;
                    }
                    cur = next;
                },
                Err(cause) => {
                    let reached = if k == 0 {
                        from.clone()
                    } else {
                        proof {
                            lemma_plan_positions(ts, self.strategy(), from@, to@, (k - 1) as int);
                            assert(ts.len() == self.versions@.len());
                            assert(p[k - 1] == steps@[k - 1]);
                        }
                        let nv = self.versions.len();
                        let at = match steps[k - 1] {
                            MigrationStep::Upgrade(i) => {
                                assert(i + 1 < nv);
                                i + 1
                            },
                            MigrationStep::Downgrade(i) => i,
                        };
                        proof {
                            assert(tags(self.versions@)[at as int] == self.versions@[at as int]@);
                        }
                        self.versions[at].clone()
                    };
                    proof {
                        assert(step.ensures((p[k as int], vals[k as int]), Err(cause)));
                    }
                    return Err(MigrationError::StepFailed { reached, cause });
                },
            }
            k = k + 1;
        }
        assert(p.take(p.len() as int) =~= p);
        Ok(cur)
    }
}

/// Every step of a plan leads to a registered version.
proof fn lemma_plan_positions(
    ts: Seq<Seq<char>>,
    strategy: Option<Seq<bool>>,
    from: Seq<char>,
    to: Seq<char>,
    k: int,
)
    requires
        migration_plan(ts, strategy, from, to) is Ok,
        0 <= k < migration_plan(ts, strategy, from, to)->Ok_0.len(),
    ensures
        0 <= position_after(migration_plan(ts, strategy, from, to)->Ok_0[k]) < ts.len(),
{
}

/// Along a linear chain, migrating a value from an older version to a newer
/// one applies each upgrade between them once, in ascending order; and when
/// the chain offers no downgrades, migrating the other way fails with
/// `UnsupportedMigration` at the first step down.
pub proof fn lemma_linear_chain(ts: Seq<Seq<char>>, downgrades: Seq<bool>, s: int, t: int)
    requires
        tags_unique(ts),
        downgrades.len() + 1 == ts.len(),
        0 <= s < t < ts.len(),
    ensures
        migration_plan(ts, Some(downgrades), ts[s], ts[t]) == Ok::<_, MigrationErrorView>(
            upgrade_path(s, t),
        ),
        upgrade_path(s, t).len() == t - s,
        forall|k: int| 0 <= k < t - s ==> upgrade_path(s, t)[k] == MigrationStep::Upgrade((s + k) as usize),
        (forall|k: int| 0 <= k < downgrades.len() ==> !downgrades[k]) ==> migration_plan(
            ts,
            Some(downgrades),
            ts[t],
            ts[s],
        ) == Err::<Seq<MigrationStep>, _>(
            MigrationErrorView::UnsupportedMigration { from: ts[t], to: ts[t - 1] },
        ),
{
    lemma_position_of_tag(ts, s);
    lemma_position_of_tag(ts, t);
}

/// In a sequence of unique tags, the position of the tag at `i` is `i`.
proof fn lemma_position_of_tag(ts: Seq<Seq<char>>, i: int)
    requires
        tags_unique(ts),
        0 <= i < ts.len(),
    ensures
        version_position(ts, ts[i]) == Some(i),
{
    let c = choose|c: int| 0 <= c < ts.len() && ts[c] == ts[i];
    if c < i {
        assert(ts[c] != ts[i]);
    } else if c > i {
        assert(ts[i] != ts[c]);
    }
}

/// An extension that registered a single version never adapts a value: a
/// value stored under any other tag is refused as an unknown version, in
/// either direction.
pub proof fn lemma_single_version_rejects_others(v: Seq<char>, w: Seq<char>)
    requires
        v != w,
    ensures
        migration_plan(seq![v], None, w, v) == Err::<Seq<MigrationStep>, _>(
            MigrationErrorView::UnknownVersion { version: w },
        ),
        migration_plan(seq![v], None, v, w) == Err::<Seq<MigrationStep>, _>(
            MigrationErrorView::UnknownVersion { version: w },
        ),
        migration_plan(seq![v], None, v, v) == Ok::<_, MigrationErrorView>(Seq::<MigrationStep>::empty()),
{
    lemma_position_of_tag(seq![v], 0);
    assert(!(exists|i: int| 0 <= i < seq![v].len() && seq![v][i] == w));
}

} // verus!
