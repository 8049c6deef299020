//! Declared cyclers and their expansion into concrete cycler instances.
use vstd::prelude::*;

verus! {

/// How a cycler is clocked.
#[derive(Clone, Copy, Debug, PartialEq, Eq, Structural)]
pub enum CyclerKind {
    Perception,
    RealTime,
}

/// One declared cycler: its name, kind, optional instance suffixes (absent
/// for a single instance named after the cycler), backing module and nodes
/// in execution order.
#[derive(Debug)]
pub struct CyclerConfiguration {
    pub name: String,
    pub kind: CyclerKind,
    pub instances: Option<Vec<String>>,
    pub module: String,
    pub nodes: Vec<String>,
}

/// The (instance, module) pairs that one configuration expands into.
pub open spec fn bindings_of(c: CyclerConfiguration) -> Seq<(Seq<char>, Seq<char>)> {
    match c.instances {
        Some(suffixes) => suffixes@.map_values(|s: String| (c.name@ + s@, c.module@)),
        None => seq![(c.name@, c.module@)],
    }
}

/// The (instance, module) pairs of all configurations, in declaration order.
pub open spec fn expand(configurations: Seq<CyclerConfiguration>) -> Seq<(Seq<char>, Seq<char>)>
    decreases configurations.len(),
{
    if configurations.len() == 0 {
        Seq::empty()
    } else {
        expand(configurations.drop_last()) + bindings_of(configurations.last())
    }
}

/// The concrete cycler instances and the module each is bound to, in
/// declaration order.
#[derive(Debug)]
pub struct CyclerInstances {
    pub instance_to_module: Vec<(String, String)>,
}

/// The texts of a sequence of (instance, module) pairs.
pub open spec fn bindings_view(v: Seq<(String, String)>) -> Seq<(Seq<char>, Seq<char>)> {
    v.map_values(|p: (String, String)| (p.0@, p.1@))
}

impl View for CyclerInstances {
    type V = Seq<(Seq<char>, Seq<char>)>;

    open spec fn view(&self) -> Seq<(Seq<char>, Seq<char>)> {
        bindings_view(self.instance_to_module@)
    }
}

/// Two bindings of `b` share an instance name.
pub open spec fn has_duplicate_instance(b: Seq<(Seq<char>, Seq<char>)>) -> bool {
    exists|i: int, j: int| 0 <= i < j < b.len() && (#[trigger] b[i]).0 == (#[trigger] b[j]).0
}

/// A configuration that cannot be resolved.
pub enum ConfigurationError {
    /// Two cycler instances carry the same name.
    DuplicateInstance { instance: String },
}

proof fn lemma_bindings_push(v: Seq<(String, String)>, p: (String, String))
    ensures
        bindings_view(v.push(p)) == bindings_view(v).push((p.0@, p.1@)),
{
    assert(bindings_view(v.push(p)) =~= bindings_view(v).push((p.0@, p.1@)));
}

/// The instances that the bindings `b` bind to `module`, in order.
pub open spec fn instances_in(b: Seq<(Seq<char>, Seq<char>)>, module: Seq<char>) -> Seq<Seq<char>>
    decreases b.len(),
{
    if b.len() == 0 {
        Seq::empty()
    } else {
        let earlier = instances_in(b.drop_last(), module);
        if b.last().1 == module {
            earlier.push(b.last().0)
        } else {
            earlier
        }
    }
}

impl CyclerInstances {
    /// Expands every configuration into its instances: a cycler with
    /// suffixes yields one instance per suffix, named cycler name followed
    /// by suffix; one without yields a single instance named after it.
    pub fn from_configuration(values: &Vec<CyclerConfiguration>) -> (r: Self)
        ensures
            r@ == expand(values@),
    {
        let mut bindings: Vec<(String, String)> = Vec::new();
        let mut i: usize = 0;
        while i < values.len()
            invariant
                i <= values@.len(),
                bindings_view(bindings@) == expand(values@.take(i as int)),
            decreases values@.len() - i,
        {
            let value = &values[i];
            let ghost start = bindings_view(bindings@);
            proof {
                assert(values@.take(i + 1).drop_last() =~= values@.take(i as int));
                assert(values@.take(i + 1).last() == *value);
            }
            match &value.instances {
                Some(suffixes) => {
                    let mut j: usize = 0;
                    while j < suffixes.len()
                        invariant
                            j <= suffixes@.len(),
                            bindings_view(bindings@) == start + bindings_of(*value).take(j as int),
                            value.instances == Some(*suffixes),
                        decreases suffixes@.len() - j,
                    {
                        let instance = value.name.clone().concat(suffixes[j].as_str());
                        let ghost before = bindings@;
                        bindings.push((instance, value.module.clone()));
                        proof {
                            lemma_bindings_push(before, (instance, value.module));
                            assert(bindings_of(*value).take(j + 1) =~= bindings_of(*value).take(
                                j as int,
                            ).push(bindings_of(*value)[j as int]));
                            assert(start + bindings_of(*value).take(j + 1) =~= (start
                                + bindings_of(*value).take(j as int)).push(
                                bindings_of(*value)[j as int],
                            ));
                        }
                        j = j + 1;
                    }
                    assert(bindings_of(*value).take(suffixes@.len() as int) =~= bindings_of(*value));
                },
                None => {
                    let ghost before = bindings@;
                    bindings.push((value.name.clone(), value.module.clone()));
                    proof {
                        lemma_bindings_push(before, (value.name, value.module));
                        assert(start + bindings_of(*value) =~= start.push((value.name@, value.module@)));
                    }
                },
            }
            i = i + 1;
        }
        assert(values@.take(values@.len() as int) =~= values@);
        CyclerInstances { instance_to_module: bindings }
    }

    /// Expands the configurations, failing when two instances would carry
    /// the same name.
    pub fn try_from_configuration(values: &Vec<CyclerConfiguration>) -> (r: Result<
        Self,
        ConfigurationError,
    >)
        ensures
            r is Ok <==> !has_duplicate_instance(expand(values@)),
            r matches Ok(instances) ==> instances@ == expand(values@),
            r matches Err(ConfigurationError::DuplicateInstance { instance }) ==> exists|
                i: int,
                j: int,
            |
                0 <= i < j < expand(values@).len() && (#[trigger] expand(values@)[i]).0
                    == instance@ && (#[trigger] expand(values@)[j]).0 == instance@,
    {
        let instances = Self::from_configuration(values);
        let b = &instances.instance_to_module;
        let mut j: usize = 0;
        while j < b.len()
            invariant
                j <= b@.len(),
                instances@ == expand(values@),
                b == instances.instance_to_module,
                forall|x: int, y: int| 0 <= x < y < j ==> b@[x].0@ != b@[y].0@,
            decreases b@.len() - j,
        {
            let mut i: usize = 0;
            while i < j
                invariant
                    i <= j < b@.len(),
                    instances@ == expand(values@),
                    b == instances.instance_to_module,
                    forall|x: int| 0 <= x < i ==> b@[x].0@ != b@[j as int].0@,
                decreases j - i,
            {
                if b[i].0 == b[j].0 {
                    let instance = b[j].0.clone();
                    proof {
                        assert(instances@[i as int].0 == instance@);
                        assert(instances@[j as int].0 == instance@);
                    }
                    return Err(ConfigurationError::DuplicateInstance { instance });
                }
                i = i + 1;
            }
            j = j + 1;
        }
        proof {
            assert forall|x: int, y: int| 0 <= x < y < instances@.len() implies (
            #[trigger] instances@[x]).0 != (#[trigger] instances@[y]).0 by {
                assert(instances@[x].0 == b@[x].0@);
                assert(instances@[y].0 == b@[y].0@);
            }
        }
        Ok(instances)
    }

    /// The module that `instance` is bound to, if it is one of the instances.
    pub fn module_of(&self, instance: &String) -> (r: Option<String>)
        ensures
            r is None <==> forall|i: int| 0 <= i < self@.len() ==> (#[trigger] self@[i]).0 != instance@,
            r matches Some(m) ==> exists|i: int|
                0 <= i < self@.len() && (#[trigger] self@[i]).0 == instance@ && self@[i].1 == m@,
    {
        let mut i: usize = 0;
        while i < self.instance_to_module.len()
            invariant
                i <= self@.len(),
                self@.len() == self.instance_to_module@.len(),
                forall|x: int| 0 <= x < i ==> (#[trigger] self@[x]).0 != instance@,
            decreases self@.len() - i,
        {
            if self.instance_to_module[i].0 == *instance {
                let module = self.instance_to_module[i].1.clone();
                assert(self@[i as int].0 == instance@);
                return Some(module);
            }
            proof {
                assert(self@[i as int].0 == self.instance_to_module@[i as int].0@);
            }
            i = i + 1;
        }
        None
    }

    /// The instances bound to `module`, in declaration order.
    pub fn instances_of(&self, module: &String) -> (r: Vec<String>)
        ensures
            r@.map_values(|s: String| s@) == instances_in(self@, module@),
    {
        let mut r: Vec<String> = Vec::new();
        let mut i: usize = 0;
        while i < self.instance_to_module.len()
            invariant
                i <= self@.len(),
                self@.len() == self.instance_to_module@.len(),
                r@.map_values(|s: String| s@) == instances_in(self@.take(i as int), module@),
            decreases self@.len() - i,
        {
            let ghost before = r@;
            proof {
                assert(self@.take(i + 1).drop_last() =~= self@.take(i as int));
                assert(self@[i as int] == (
                    self.instance_to_module@[i as int].0@,
                    self.instance_to_module@[i as int].1@,
                ));
            }
            if self.instance_to_module[i].1 == *module {
                r.push(self.instance_to_module[i].0.clone());
                proof {
                    assert(r@.map_values(|s: String| s@) =~= before.map_values(|s: String| s@).push(
                        self@[i as int].0,
                    ));
                }
            }
            i = i + 1;
        }
        assert(self@.take(self@.len() as int) =~= self@);
        r
    }
}

} // verus!
