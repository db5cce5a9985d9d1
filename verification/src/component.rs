use vstd::prelude::*;

use crate::codec::escape;
use crate::codec::escape_x;
use crate::icaltime::{spec_parse_time, IcalTime};
use crate::strutil::str_eq;

verus! {

// The property model: one typed property of a calendar component, with
// the well-formedness that the wire codec relies on.

/// The mathematical content of a property: its name, its raw parameter
/// text and its (unescaped) value.
pub ghost struct PropModel {
    pub name: Seq<char>,
    pub params: Seq<char>,
    pub value: Seq<char>,
}

/// A property name character: an upper-case letter, a digit or a dash.
pub open spec fn is_name_char(c: char) -> bool {
    (65 <= c as int && c as int <= 90) || (48 <= c as int && c as int <= 57) || c as int == 45
}

/// A usable property name: non-empty, name characters only, and not one
/// of the two structural keywords.
pub open spec fn name_ok(n: Seq<char>) -> bool {
    &&& n.len() > 0
    &&& forall|i: int| 0 <= i < n.len() ==> is_name_char(n[i])
    &&& n != "BEGIN"@
    &&& n != "END"@
}

/// Usable parameter text: no value separator and no line breaks, and a
/// leading `;` when present at all.
pub open spec fn params_ok(p: Seq<char>) -> bool {
    &&& forall|i: int| 0 <= i < p.len() ==> p[i] != ':' && p[i] != '\n' && p[i] != '\r'
    &&& p.len() > 0 ==> p[0] == ';'
}

/// A usable value: free of carriage returns (line breaks are escaped on
/// the wire).
pub open spec fn value_ok(v: Seq<char>) -> bool {
    !v.contains('\r')
}

/// One property of a component.
#[derive(Debug, Clone)]
pub struct IcalProperty {
    pub name: String,
    pub params: String,
    pub value: String,
}

impl IcalProperty {
    pub open spec fn model(self) -> PropModel {
        PropModel { name: self.name@, params: self.params@, value: self.value@ }
    }

    /// The well-formedness every stored property obeys.
    pub open spec fn wf(self) -> bool {
        prop_model_wf(self.model())
    }

    pub fn new(name: String, params: String, value: String) -> (r: IcalProperty)
        ensures
            r.name == name && r.params == params && r.value == value,
    {
        IcalProperty { name, params, value }
    }

    /// The property's name.
    pub fn get_name(&self) -> (r: String)
        ensures
            r@ == self.name@,
    {
        self.name.clone()
    }

    /// The property's value text.
    pub fn get_value(&self) -> (r: String)
        ensures
            r@ == self.value@,
    {
        self.value.clone()
    }

    /// The property's date value, when its value text is a wire date or
    /// date-time: the calendar date of that value.
    pub fn get_value_as_date(&self) -> (r: Option<IcalTime>)
        ensures
            match spec_parse_time(self.value@) {
                Some(t) => r is Some && r->0.is_date && r->0.year == t.year && r->0.month == t.month
                    && r->0.day == t.day,
                None => r is None,
            },
    {
        match IcalTime::parse(self.value.as_str()) {
            Some(t) => Some(t.to_date()),
            None => None,
        }
    }

    /// The property's one-line wire form, without the line terminator.
    pub fn as_ical_string(&self) -> (r: String)
        ensures
            r@ == render_prop(self.model()),
    {
        let mut s = self.name.clone();
        s.append(self.params.as_str());
        proof {
            reveal_strlit(":");
        }
        s.append(":");
        let esc = escape_x(self.value.as_str());
        s.append(esc.as_str());
        proof {
            assert((":")@ =~= seq![':']);
            assert(s@ =~= render_prop(self.model()));
        }
        s
    }
}

pub open spec fn prop_model_wf(p: PropModel) -> bool {
    &&& name_ok(p.name)
    &&& params_ok(p.params)
    &&& value_ok(p.value)
}

/// The one-line wire form of a property.
pub open spec fn render_prop(p: PropModel) -> Seq<char> {
    p.name + p.params + seq![':'] + escape(p.value)
}

/// The models of a property list.
pub open spec fn props_model(ps: Seq<IcalProperty>) -> Seq<PropModel> {
    ps.map_values(|p: IcalProperty| p.model())
}

/// All property models of a list are well formed.
pub open spec fn props_model_wf(ms: Seq<PropModel>) -> bool {
    forall|i: int| 0 <= i < ms.len() ==> prop_model_wf(#[trigger] ms[i])
}

/// All properties of a list are well formed.
pub open spec fn props_wf(ps: Seq<IcalProperty>) -> bool {
    props_model_wf(props_model(ps))
}

/// An exact copy of a property.
pub fn clone_prop(p: &IcalProperty) -> (r: IcalProperty)
    ensures
        r == *p,
        r.model() == p.model(),
{
    IcalProperty { name: p.name.clone(), params: p.params.clone(), value: p.value.clone() }
}

/// An exact copy of a property list.
pub fn clone_props(ps: &Vec<IcalProperty>) -> (r: Vec<IcalProperty>)
    ensures
        r@ == ps@,
        props_model(r@) == props_model(ps@),
{
    let mut r: Vec<IcalProperty> = Vec::new();
    let mut i: usize = 0;
    while i < ps.len()
        invariant
            0 <= i <= ps@.len(),
            r@.len() == i,
            forall|j: int| 0 <= j < i ==> #[trigger] r@[j] == ps@[j],
        decreases ps@.len() - i,
    {
        r.push(clone_prop(&ps[i]));
        i = i + 1;
    }
    proof {
        assert(r@ =~= ps@);
        assert(props_model(r@) =~= props_model(ps@));
    }
    r
}

/// Whether a property list holds a property of the given name.
pub open spec fn has_prop(ps: Seq<PropModel>, name: Seq<char>) -> bool {
    exists|i: int| 0 <= i < ps.len() && (#[trigger] ps[i]).name == name
}

/// The properties of the given name, in order.
pub open spec fn props_named(ps: Seq<PropModel>, name: Seq<char>) -> Seq<PropModel>
    decreases ps.len(),
{
    if ps.len() == 0 {
        Seq::empty()
    } else {
        let prev = props_named(ps.drop_last(), name);
        if ps.last().name == name {
            prev.push(ps.last())
        } else {
            prev
        }
    }
}

/// The properties that do not bear the given name, in order.
pub open spec fn props_without(ps: Seq<PropModel>, name: Seq<char>) -> Seq<PropModel>
    decreases ps.len(),
{
    if ps.len() == 0 {
        Seq::empty()
    } else {
        let prev = props_without(ps.drop_last(), name);
        if ps.last().name != name {
            prev.push(ps.last())
        } else {
            prev
        }
    }
}

/// The value of the first property of the given name, if any.
pub open spec fn first_prop_value(ps: Seq<PropModel>, name: Seq<char>) -> Option<Seq<char>>
    decreases ps.len(),
{
    if ps.len() == 0 {
        None
    } else if ps[0].name == name {
        Some(ps[0].value)
    } else {
        first_prop_value(ps.drop_first(), name)
    }
}

/// Selecting by name keeps well-formedness.
pub proof fn lemma_props_named_wf(ms: Seq<PropModel>, name: Seq<char>)
    requires
        props_model_wf(ms),
    ensures
        props_model_wf(props_named(ms, name)),
        forall|i: int| 0 <= i < props_named(ms, name).len() ==> (#[trigger] props_named(
            ms,
            name,
        )[i]).name == name,
    decreases ms.len(),
{
    if ms.len() > 0 {
        assert(props_model_wf(ms.drop_last())) by {
            assert(forall|i: int|
                0 <= i < ms.len() - 1 ==> ms.drop_last()[i] == ms[i]);
        }
        lemma_props_named_wf(ms.drop_last(), name);
        assert(ms[ms.len() - 1] == ms.last());
    }
}

/// Removing by name keeps well-formedness, and leaves no such name.
pub proof fn lemma_props_without_wf(ms: Seq<PropModel>, name: Seq<char>)
    ensures
        props_model_wf(ms) ==> props_model_wf(props_without(ms, name)),
        !has_prop(props_without(ms, name), name),
        forall|i: int| 0 <= i < props_without(ms, name).len() ==> (#[trigger] props_without(
            ms,
            name,
        )[i]).name != name,
    decreases ms.len(),
{
    if ms.len() > 0 {
        assert(forall|i: int|
            0 <= i < ms.len() - 1 ==> ms.drop_last()[i] == ms[i]);
        lemma_props_without_wf(ms.drop_last(), name);
        assert(ms[ms.len() - 1] == ms.last());
    }
    if has_prop(props_without(ms, name), name) {
        let i = choose|i: int|
            0 <= i < props_without(ms, name).len() && props_without(ms, name)[i].name == name;
        assert(false);
    }
}

/// The properties of the given name among a stored property list.
pub fn get_properties_by_name_vec(ps: &Vec<IcalProperty>, name: &str) -> (r: Vec<IcalProperty>)
    ensures
        props_model(r@) == props_named(props_model(ps@), name@),
        props_wf(ps@) ==> props_wf(r@),
{
    let mut r: Vec<IcalProperty> = Vec::new();
    let mut i: usize = 0;
    proof {
        assert(props_model(ps@.subrange(0, 0)) =~= Seq::<PropModel>::empty());
        assert(props_named(Seq::<PropModel>::empty(), name@) =~= Seq::<PropModel>::empty());
        assert(props_model(r@) =~= Seq::<PropModel>::empty());
    }
    while i < ps.len()
        invariant
            0 <= i <= ps@.len(),
            props_model(r@) == props_named(props_model(ps@.subrange(0, i as int)), name@),
        decreases ps@.len() - i,
    {
        proof {
            let m = props_model(ps@.subrange(0, i as int + 1));
            assert(m.drop_last() =~= props_model(ps@.subrange(0, i as int)));
            assert(m.last() == ps@[i as int].model());
        }
        if str_eq(ps[i].name.as_str(), name) {
            r.push(clone_prop(&ps[i]));
            proof {
                assert(ps@[i as int].model().name == name@);
                assert(props_model(r@) =~= props_named(
                    props_model(ps@.subrange(0, i as int + 1)),
                    name@,
                ));
            }
        } else {
            proof {
                assert(props_model(r@) =~= props_named(
                    props_model(ps@.subrange(0, i as int + 1)),
                    name@,
                ));
            }
        }
        i = i + 1;
    }
    proof {
        assert(ps@.subrange(0, ps@.len() as int) =~= ps@);
        if props_wf(ps@) {
            lemma_props_named_wf(props_model(ps@), name@);
        }
    }
    r
}

/// The first property of the given name among a stored property list.
pub fn get_property_by_name_vec(ps: &Vec<IcalProperty>, name: &str) -> (r: Option<IcalProperty>)
    ensures
        match r {
            Some(p) => first_prop_value(props_model(ps@), name@) == Some(p.value@) && p.name@
                == name@,
            None => first_prop_value(props_model(ps@), name@) is None,
        },
{
    let mut i: usize = 0;
    proof {
        assert(props_model(ps@).subrange(0, ps@.len() as int) =~= props_model(ps@));
    }
    while i < ps.len()
        invariant
            0 <= i <= ps@.len(),
            first_prop_value(props_model(ps@), name@) == first_prop_value(
                props_model(ps@).subrange(i as int, ps@.len() as int),
                name@,
            ),
            forall|j: int| 0 <= j < i ==> ps@[j].name@ != name@,
        decreases ps@.len() - i,
    {
        let ghost rest = props_model(ps@).subrange(i as int, ps@.len() as int);
        proof {
            assert(rest[0] == ps@[i as int].model());
            assert(rest.drop_first() =~= props_model(ps@).subrange(
                i as int + 1,
                ps@.len() as int,
            ));
        }
        if str_eq(ps[i].name.as_str(), name) {
            return Some(clone_prop(&ps[i]));
        }
        i = i + 1;
    }
    proof {
        assert(props_model(ps@).subrange(i as int, ps@.len() as int) =~= Seq::<
            PropModel,
        >::empty());
    }
    None
}

/// The property list with every property of the given name removed,
/// and how many were removed.
pub fn remove_property_all(ps: &mut Vec<IcalProperty>, name: &str) -> (count: usize)
    ensures
        props_model(final(ps)@) == props_without(props_model(old(ps)@), name@),
        count == old(ps)@.len() - final(ps)@.len(),
        props_wf(old(ps)@) ==> props_wf(final(ps)@),
        !has_prop(props_model(final(ps)@), name@),
{
    let mut out: Vec<IcalProperty> = Vec::new();
    let mut i: usize = 0;
    let n = ps.len();
    proof {
        assert(props_model(ps@.subrange(0, 0)) =~= Seq::<PropModel>::empty());
        assert(props_without(Seq::<PropModel>::empty(), name@) =~= Seq::<PropModel>::empty());
        assert(props_model(out@) =~= Seq::<PropModel>::empty());
    }
    while i < n
        invariant
            0 <= i <= n,
            n == ps@.len(),
            props_model(out@) == props_without(props_model(ps@.subrange(0, i as int)), name@),
            out@.len() <= i,
        decreases n - i,
    {
        proof {
            let m = props_model(ps@.subrange(0, i as int + 1));
            assert(m.drop_last() =~= props_model(ps@.subrange(0, i as int)));
            assert(m.last() == ps@[i as int].model());
        }
        if !str_eq(ps[i].name.as_str(), name) {
            out.push(clone_prop(&ps[i]));
            proof {
                assert(props_model(out@) =~= props_without(
                    props_model(ps@.subrange(0, i as int + 1)),
                    name@,
                ));
            }
        } else {
            proof {
                assert(props_model(out@) =~= props_without(
                    props_model(ps@.subrange(0, i as int + 1)),
                    name@,
                ));
            }
        }
        i = i + 1;
    }
    proof {
        assert(ps@.subrange(0, n as int) =~= ps@);
        lemma_props_without_wf(props_model(ps@), name@);
    }
    let removed = n - out.len();
    *ps = out;
    removed
}

/// Uniform property access for components holding a property list.
pub trait IcalComponent {
    spec fn comp_props(&self) -> Seq<IcalProperty>;

    /// All properties of the component.
    fn get_properties_all(&self) -> (r: Vec<IcalProperty>)
        ensures
            r@ == self.comp_props(),
    ;

    /// The properties of the given name, in order.
    fn get_properties_by_name(&self, name: &str) -> (r: Vec<IcalProperty>)
        ensures
            props_model(r@) == props_named(props_model(self.comp_props()), name@),
    ;

    /// The first property of the given name.
    fn get_property_by_name(&self, name: &str) -> (r: Option<IcalProperty>)
        ensures
            match r {
                Some(p) => first_prop_value(props_model(self.comp_props()), name@) == Some(
                    p.value@,
                ) && p.name@ == name@,
                None => first_prop_value(props_model(self.comp_props()), name@) is None,
            },
    ;
}

} // verus!
