//! The API dump's inspector metadata: which properties each class has (own and
//! inherited), who may write them, and how the inspector presents them.

use vstd::prelude::*;

verus! {

/// One property's inspector metadata.
#[derive(Clone, Debug, PartialEq, Eq, Hash, PartialOrd, Ord)]
pub struct PropMeta {
    pub category: String,
    pub read_only: bool,
    pub layout_order: u32,
    /// The write-security ordinal needed to see the property.
    pub security_level: u8,
}

impl Default for PropMeta {
    fn default() -> (r: Self)
        ensures
            r.category@ == "Other"@,
            !r.read_only,
            r.layout_order == 0,
            r.security_level == 2,
    {
        PropMeta {
            category: String::from_str("Other"),
            read_only: false,
            layout_order: 0,
            security_level: 2,
        }
    }
}

/// One class of the dump: its superclass (absent for a root class) and its own
/// properties.
#[derive(Clone, Debug)]
pub struct ClassEntry {
    pub name: String,
    pub superclass: Option<String>,
    pub properties: Vec<(String, PropMeta)>,
}

/// The index of the first class named `name`.
pub open spec fn class_index(classes: Seq<ClassEntry>, name: Seq<char>) -> Option<int>
    decreases classes.len(),
{
    if classes.len() == 0 {
        None
    } else {
        match class_index(classes.drop_last(), name) {
            Some(i) => Some(i),
            None => if classes.last().name@ == name {
                Some(classes.len() - 1)
            } else {
                None
            },
        }
    }
}

/// The classes met walking up from `name` (itself first, then each
/// superclass), stopping at a root class or a name the dump lacks, or when
/// `fuel` runs out.
pub open spec fn chain_from(classes: Seq<ClassEntry>, name: Seq<char>, fuel: nat) -> Seq<int>
    decreases fuel,
{
    match class_index(classes, name) {
        None => Seq::empty(),
        Some(i) => if fuel == 0 {
            Seq::empty()
        } else {
            seq![i] + match classes[i].superclass {
                None => Seq::empty(),
                Some(s) => chain_from(classes, s@, (fuel - 1) as nat),
            }
        },
    }
}

/// Walking up from `name` ends (at a root class or an unknown name) within
/// `fuel` classes.
pub open spec fn chain_ends(classes: Seq<ClassEntry>, name: Seq<char>, fuel: nat) -> bool
    decreases fuel,
{
    match class_index(classes, name) {
        None => true,
        Some(i) => fuel > 0 && match classes[i].superclass {
            None => true,
            Some(s) => chain_ends(classes, s@, (fuel - 1) as nat),
        },
    }
}

/// The whole superclass chain of `name`.
pub open spec fn chain(classes: Seq<ClassEntry>, name: Seq<char>) -> Seq<int> {
    chain_from(classes, name, classes.len())
}

/// Add the visible (security at most `threshold`) and not-yet-seen property
/// names of `props`, in order.
pub open spec fn add_visible(acc: Seq<Seq<char>>, props: Seq<(String, PropMeta)>, threshold: u8) -> Seq<Seq<char>>
    decreases props.len(),
{
    if props.len() == 0 {
        acc
    } else {
        let before = add_visible(acc, props.drop_last(), threshold);
        let (name, meta) = props.last();
        if meta.security_level <= threshold && !before.contains(name@) {
            before.push(name@)
        } else {
            before
        }
    }
}

/// The visible property names of the classes `indices`, deduplicated, in
/// chain order.
pub open spec fn collect_visible(classes: Seq<ClassEntry>, indices: Seq<int>, threshold: u8) -> Seq<Seq<char>>
    decreases indices.len(),
{
    if indices.len() == 0 {
        Seq::empty()
    } else {
        add_visible(
            collect_visible(classes, indices.drop_last(), threshold),
            classes[indices.last()].properties@,
            threshold,
        )
    }
}

/// The first metadata for `property` among the classes `indices`.
pub open spec fn find_meta(classes: Seq<ClassEntry>, indices: Seq<int>, property: Seq<char>) -> Option<PropMeta>
    decreases indices.len(),
{
    if indices.len() == 0 {
        None
    } else {
        match own_meta(classes[indices[0]].properties@, property) {
            Some(meta) => Some(meta),
            None => find_meta(classes, indices.drop_first(), property),
        }
    }
}

/// The first metadata a class itself gives `property`.
pub open spec fn own_meta(props: Seq<(String, PropMeta)>, property: Seq<char>) -> Option<PropMeta>
    decreases props.len(),
{
    if props.len() == 0 {
        None
    } else if props[0].0@ == property {
        Some(props[0].1)
    } else {
        own_meta(props.drop_first(), property)
    }
}

/// The bundled API dump: every class's superclass and own properties, with
/// every superclass chain ending.
#[derive(Debug)]
pub struct ApiDump {
    classes: Vec<ClassEntry>,
}

/// Every class's superclass chain ends within as many steps as there are classes.
pub open spec fn dump_wf(classes: Seq<ClassEntry>) -> bool {
    forall|i: int| 0 <= i < classes.len() ==> chain_ends(classes, #[trigger] classes[i].name@, classes.len())
}

/// What `class_index` finds: the earliest class with the name.
pub proof fn lemma_class_index(classes: Seq<ClassEntry>, name: Seq<char>)
    ensures
        match class_index(classes, name) {
            Some(i) => 0 <= i < classes.len() && classes[i].name@ == name && forall|j: int|
                0 <= j < i ==> classes[j].name@ != name,
            None => forall|j: int| 0 <= j < classes.len() ==> classes[j].name@ != name,
        },
    decreases classes.len(),
{
    if classes.len() > 0 {
        let init = classes.drop_last();
        lemma_class_index(init, name);
        assert(forall|j: int| 0 <= j < init.len() ==> init[j] == classes[j]);
    }
}

/// A chain that ends within some fuel ends within any larger fuel, and walks
/// the same classes.
pub proof fn lemma_chain_fuel(classes: Seq<ClassEntry>, name: Seq<char>, fuel: nat, more: nat)
    requires
        chain_ends(classes, name, fuel),
        fuel <= more,
    ensures
        chain_ends(classes, name, more),
        chain_from(classes, name, fuel) == chain_from(classes, name, more),
    decreases fuel,
{
    match class_index(classes, name) {
        None => {},
        Some(i) => match classes[i].superclass {
            None => {},
            Some(s) => {
                lemma_chain_fuel(classes, s@, (fuel - 1) as nat, (more - 1) as nat);
            },
        },
    }
}

/// The index of the first class named `name`.
fn find_class(classes: &Vec<ClassEntry>, name: &String) -> (r: Option<usize>)
    ensures
        match r {
            Some(i) => class_index(classes@, name@) == Some(i as int) && i < classes@.len()
                && classes@[i as int].name@ == name@,
            None => class_index(classes@, name@) is None,
        },
{
    proof {
        lemma_class_index(classes@, name@);
    }
    let mut i: usize = 0;
    while i < classes.len()
        invariant
            i <= classes@.len(),
            forall|j: int| 0 <= j < i ==> classes@[j].name@ != name@,
            match class_index(classes@, name@) {
                Some(f) => 0 <= f < classes@.len() && classes@[f].name@ == name@ && forall|j: int|
                    0 <= j < f ==> classes@[j].name@ != name@,
                None => forall|j: int| 0 <= j < classes@.len() ==> classes@[j].name@ != name@,
            },
        decreases classes@.len() - i,
    {
        if classes[i].name == *name {
            return Some(i);
        }
        i = i + 1;
    }
    None
}

/// Whether walking up from `name` ends within `fuel` classes.
fn walk_ends(classes: &Vec<ClassEntry>, name: &String, fuel: usize) -> (r: bool)
    ensures
        r == chain_ends(classes@, name@, fuel as nat),
{
    let mut current = name.clone();
    let mut left = fuel;
    loop
        invariant
            chain_ends(classes@, name@, fuel as nat) == chain_ends(classes@, current@, left as nat),
        decreases left,
    {
        match find_class(classes, &current) {
            None => return true,
            Some(i) => {
                if left == 0 {
                    return false;
                }
                match &classes[i].superclass {
                    None => return true,
                    Some(s) => {
                        current = s.clone();
                        left = left - 1;
                    },
                }
            },
        }
    }
}

impl ApiDump {
    /// The dump's classes.
    pub closed spec fn classes(&self) -> Seq<ClassEntry> {
        self.classes@
    }

    #[verifier::type_invariant]
    closed spec fn wf(&self) -> bool {
        dump_wf(self.classes@)
    }

    /// Take the parsed classes as the dump, or `None` when some superclass
    /// chain loops (walking it would never end).
    pub fn new(classes: Vec<ClassEntry>) -> (r: Option<ApiDump>)
        ensures
            match r {
                Some(dump) => dump.classes() == classes@ && dump_wf(classes@),
                None => !dump_wf(classes@),
            },
    {
        let n = classes.len();
        let mut i: usize = 0;
        while i < n
            invariant
                n == classes@.len(),
                i <= n,
                forall|j: int| 0 <= j < i ==> chain_ends(classes@, #[trigger] classes@[j].name@, n as nat),
            decreases n - i,
        {
            if !walk_ends(&classes, &classes[i].name, n) {
                return None;
            }
            i = i + 1;
        }
        Some(ApiDump { classes })
    }
}

/// Whether `names` already holds `name`.
fn holds_name(names: &Vec<String>, name: &String) -> (r: bool)
    ensures
        r == names@.map_values(|s: String| s@).contains(name@),
{
    let ghost view = names@.map_values(|s: String| s@);
    let mut i: usize = 0;
    while i < names.len()
        invariant
            i <= names@.len(),
            view == names@.map_values(|s: String| s@),
            forall|j: int| 0 <= j < i ==> view[j] != name@,
        decreases names@.len() - i,
    {
        if names[i] == *name {
            assert(view[i as int] == name@);
            return true;
        }
        i = i + 1;
    }
    false
}

/// The property names of `class` (own first, then inherited up the superclass
/// chain) whose write security is at most `threshold`, each once, in the order
/// met.
pub fn class_properties(dump: &ApiDump, class: &str, threshold: u8) -> (r: Vec<String>)
    ensures
        r@.map_values(|s: String| s@) == collect_visible(dump.classes(), chain(dump.classes(), class@), threshold),
{
    proof {
        use_type_invariant(dump);
    }
    let classes = &dump.classes;
    assert(classes@ == dump.classes());
    let n = classes.len();
    let mut names: Vec<String> = Vec::new();
    let mut current = class.to_owned();
    let mut left = n;
    let ghost mut visited: Seq<int> = Seq::empty();
    proof {
        lemma_class_index(classes@, class@);
        if let Some(i) = class_index(classes@, class@) {
            assert(chain_ends(classes@, classes@[i].name@, n as nat));
        }
        assert(Seq::<int>::empty() + chain(classes@, class@) =~= chain(classes@, class@));
        assert(names@.map_values(|s: String| s@) =~= Seq::<Seq<char>>::empty());
    }
    loop
        invariant
            n == classes@.len(),
            dump_wf(classes@),
            classes@ == dump.classes(),
            chain_ends(classes@, current@, left as nat),
            chain(classes@, class@) == visited + chain_from(classes@, current@, left as nat),
            names@.map_values(|s: String| s@) == collect_visible(classes@, visited, threshold),
        decreases left,
    {
        let found = find_class(classes, &current);
        match found {
            None => {
                assert(visited + chain_from(classes@, current@, left as nat) =~= visited);
                return names;
            },
            Some(i) => {
                let props = &classes[i].properties;
                let ghost start = names@.map_values(|s: String| s@);
                let mut k: usize = 0;
                while k < props.len()
                    invariant
                        k <= props@.len(),
                        names@.map_values(|s: String| s@) == add_visible(start, props@.take(k as int), threshold),
                    decreases props@.len() - k,
                {
                    let (name, meta) = &props[k];
                    proof {
                        assert(props@.take(k + 1).drop_last() =~= props@.take(k as int));
                    }
                    if meta.security_level <= threshold && !holds_name(&names, name) {
                        names.push(name.clone());
                        assert(names@.map_values(|s: String| s@) =~= add_visible(start, props@.take(k as int), threshold).push(name@));
                    }
                    k = k + 1;
                }
                proof {
                    assert(props@.take(props@.len() as int) =~= props@);
                    let old_visited = visited;
                    visited = visited.push(i as int);
                    assert(visited.drop_last() =~= old_visited);
                }
                match &classes[i].superclass {
                    None => {
                        assert(chain_from(classes@, current@, left as nat) =~= seq![i as int]);
                        assert(chain(classes@, class@) =~= visited);
                        return names;
                    },
                    Some(s) => {
                        let ghost old_current = current@;
                        current = s.clone();
                        assert(chain_from(classes@, old_current, left as nat) =~= seq![i as int] + chain_from(classes@, current@, (left - 1) as nat));
                        assert(chain(classes@, class@) =~= visited + chain_from(classes@, current@, (left - 1) as nat));
                        left = left - 1;
                    },
                }
            },
        }
    }
}

/// The first metadata a class itself gives `property`, cloned.
fn own_property(props: &Vec<(String, PropMeta)>, property: &String) -> (r: Option<PropMeta>)
    ensures
        r == own_meta(props@, property@),
{
    let mut k: usize = 0;
    assert(props@.skip(0) =~= props@);
    while k < props.len()
        invariant
            k <= props@.len(),
            own_meta(props@, property@) == own_meta(props@.skip(k as int), property@),
        decreases props@.len() - k,
    {
        let (name, meta) = &props[k];
        assert(props@.skip(k as int)[0] == props@[k as int]);
        assert(props@.skip(k as int).drop_first() =~= props@.skip(k + 1));
        if *name == *property {
            return Some(
                PropMeta {
                    category: meta.category.clone(),
                    read_only: meta.read_only,
                    layout_order: meta.layout_order,
                    security_level: meta.security_level,
                },
            );
        }
        k = k + 1;
    }
    None
}

/// A property's metadata, resolved up the class hierarchy: what the nearest
/// class on `class`'s superclass chain says of it, `None` for an unknown class
/// or property.
pub fn property_meta(dump: &ApiDump, class: &str, property: &str) -> (r: Option<PropMeta>)
    ensures
        r == find_meta(dump.classes(), chain(dump.classes(), class@), property@),
{
    proof {
        use_type_invariant(dump);
    }
    let classes = &dump.classes;
    assert(classes@ == dump.classes());
    let n = classes.len();
    let wanted = property.to_owned();
    let mut current = class.to_owned();
    let mut left = n;
    proof {
        lemma_class_index(classes@, class@);
        if let Some(i) = class_index(classes@, class@) {
            assert(chain_ends(classes@, classes@[i].name@, n as nat));
        }
    }
    loop
        invariant
            n == classes@.len(),
            dump_wf(classes@),
            classes@ == dump.classes(),
            chain_ends(classes@, current@, left as nat),
            wanted@ == property@,
            find_meta(classes@, chain(classes@, class@), property@) == find_meta(
                classes@,
                chain_from(classes@, current@, left as nat),
                property@,
            ),
        decreases left,
    {
        match find_class(classes, &current) {
            None => {
                assert(chain_from(classes@, current@, left as nat) =~= Seq::<int>::empty());
                return None;
            },
            Some(i) => {
                let ghost rest = chain_from(classes@, current@, left as nat);
                assert(rest.len() > 0);
                assert(rest[0] == i as int);
                match own_property(&classes[i].properties, &wanted) {
                    Some(meta) => return Some(meta),
                    None => {},
                }
                match &classes[i].superclass {
                    None => {
                        assert(rest.drop_first() =~= Seq::<int>::empty());
                        assert(find_meta(classes@, rest.drop_first(), property@) is None);
                        return None;
                    },
                    Some(s) => {
                        current = s.clone();
                        assert(rest.drop_first() =~= chain_from(classes@, current@, (left - 1) as nat));
                        left = left - 1;
                    },
                }
            },
        }
    }
}

/// Whether `names` repeats no name.
pub open spec fn no_repeats(names: Seq<Seq<char>>) -> bool {
    forall|i: int, j: int| 0 <= i < names.len() && 0 <= j < names.len() && i != j ==> names[i] != names[j]
}

proof fn lemma_add_visible_no_repeats(acc: Seq<Seq<char>>, props: Seq<(String, PropMeta)>, threshold: u8)
    requires
        no_repeats(acc),
    ensures
        no_repeats(add_visible(acc, props, threshold)),
    decreases props.len(),
{
    if props.len() > 0 {
        lemma_add_visible_no_repeats(acc, props.drop_last(), threshold);
    }
}

/// The property list of a class never names a property twice.
pub proof fn lemma_class_properties_no_repeats(dump_classes: Seq<ClassEntry>, indices: Seq<int>, threshold: u8)
    ensures
        no_repeats(collect_visible(dump_classes, indices, threshold)),
    decreases indices.len(),
{
    if indices.len() > 0 {
        lemma_class_properties_no_repeats(dump_classes, indices.drop_last(), threshold);
        lemma_add_visible_no_repeats(
            collect_visible(dump_classes, indices.drop_last(), threshold),
            dump_classes[indices.last()].properties@,
            threshold,
        );
    }
}

/// A property shows at a tier only if some class on the chain lists it at or
/// below that tier, and raising the threshold never hides what a lower one
/// showed.
proof fn lemma_add_visible_members(acc: Seq<Seq<char>>, props: Seq<(String, PropMeta)>, threshold: u8, name: Seq<char>)
    ensures
        add_visible(acc, props, threshold).contains(name) <==> (acc.contains(name) || exists|k: int|
            0 <= k < props.len() && props[k].0@ == name && props[k].1.security_level <= threshold),
    decreases props.len(),
{
    if props.len() > 0 {
        let init = props.drop_last();
        lemma_add_visible_members(acc, init, threshold, name);
        assert(forall|k: int| 0 <= k < init.len() ==> init[k] == props[k]);
        let before = add_visible(acc, init, threshold);
        if before.contains(name) {
            let w = choose|w: int| 0 <= w < before.len() && before[w] == name;
            let after = add_visible(acc, props, threshold);
            assert(after[w] == name);
        }
        if exists|k: int| 0 <= k < props.len() && props[k].0@ == name && props[k].1.security_level <= threshold {
            let k = choose|k: int| 0 <= k < props.len() && props[k].0@ == name && props[k].1.security_level <= threshold;
            if k < props.len() - 1 {
                assert(init[k] == props[k]);
            } else {
                let after = add_visible(acc, props, threshold);
                if !before.contains(name) {
                    assert(after[after.len() - 1] == name);
                }
            }
        }
    }
}

/// Exactly the names some class of the chain lists at or below the threshold
/// show up in the property list.
pub proof fn lemma_class_properties_members(classes: Seq<ClassEntry>, indices: Seq<int>, threshold: u8, name: Seq<char>)
    ensures
        collect_visible(classes, indices, threshold).contains(name) <==> exists|c: int, k: int|
            0 <= c < indices.len() && 0 <= k < classes[indices[c]].properties@.len()
                && classes[indices[c]].properties@[k].0@ == name
                && classes[indices[c]].properties@[k].1.security_level <= threshold,
    decreases indices.len(),
{
    if indices.len() > 0 {
        let init = indices.drop_last();
        lemma_class_properties_members(classes, init, threshold, name);
        let props = classes[indices.last()].properties@;
        lemma_add_visible_members(collect_visible(classes, init, threshold), props, threshold, name);
        assert(forall|c: int| 0 <= c < init.len() ==> init[c] == indices[c]);
        if exists|c: int, k: int|
            0 <= c < indices.len() && 0 <= k < classes[indices[c]].properties@.len()
                && classes[indices[c]].properties@[k].0@ == name
                && classes[indices[c]].properties@[k].1.security_level <= threshold {
            let (c, k) = choose|c: int, k: int|
                0 <= c < indices.len() && 0 <= k < classes[indices[c]].properties@.len()
                    && classes[indices[c]].properties@[k].0@ == name
                    && classes[indices[c]].properties@[k].1.security_level <= threshold;
            if c < init.len() {
                assert(init[c] == indices[c]);
            }
        }
    }
}

/// Raising the write-security threshold never hides a property a lower one
/// showed.
pub proof fn lemma_threshold_monotone(
    classes: Seq<ClassEntry>,
    indices: Seq<int>,
    low: u8,
    high: u8,
    name: Seq<char>,
)
    requires
        low <= high,
        collect_visible(classes, indices, low).contains(name),
    ensures
        collect_visible(classes, indices, high).contains(name),
{
    lemma_class_properties_members(classes, indices, low, name);
    lemma_class_properties_members(classes, indices, high, name);
    let (c, k) = choose|c: int, k: int|
        0 <= c < indices.len() && 0 <= k < classes[indices[c]].properties@.len()
            && classes[indices[c]].properties@[k].0@ == name
            && classes[indices[c]].properties@[k].1.security_level <= low;
    assert(classes[indices[c]].properties@[k].1.security_level <= high);
}

} // verus!
