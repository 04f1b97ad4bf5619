//! The circuit module: templates, the include directives for the gadgets they
//! instantiate, and the main component.
use vstd::prelude::*;
use crate::instructions::{
    instrs_view, template_text, CircomCodeGenerator, CircomInstr, InstrView, Template, TemplateView,
};

verus! {

/// The path listed for the gadget `g`, the first entry of that name.
pub open spec fn lookup(known: Seq<(Seq<char>, Seq<char>)>, g: Seq<char>) -> Option<Seq<char>>
    decreases known.len(),
{
    if known.len() == 0 {
        None
    } else {
        match lookup(known.drop_last(), g) {
            Some(p) => Some(p),
            None => if known.last().0 == g {
                Some(known.last().1)
            } else {
                None
            },
        }
    }
}

/// The gadget names in `used`, then those instantiated in `instrs` that are new,
/// in order of first use.
pub open spec fn used_after(used: Seq<Seq<char>>, instrs: Seq<InstrView>) -> Seq<Seq<char>>
    decreases instrs.len(),
{
    if instrs.len() == 0 {
        used
    } else {
        let u = used_after(used, instrs.drop_last());
        match instrs.last() {
            InstrView::Component(_, g) => if u.contains(g) {
                u
            } else {
                u.push(g)
            },
            _ => u,
        }
    }
}

/// `include "<path>";`
pub open spec fn include_line(path: Seq<char>) -> Seq<char> {
    "include \""@ + path + "\";"@
}

/// One include line per distinct path of the used gadgets that have one, in
/// order of first use; a gadget without a path is left out.
pub open spec fn includes_spec(known: Seq<(Seq<char>, Seq<char>)>, used: Seq<Seq<char>>) -> Seq<Seq<char>>
    decreases used.len(),
{
    if used.len() == 0 {
        Seq::empty()
    } else {
        let r = includes_spec(known, used.drop_last());
        match lookup(known, used.last()) {
            Some(p) => if r.contains(include_line(p)) {
                r
            } else {
                r.push(include_line(p))
            },
            None => r,
        }
    }
}

pub open spec fn pairs_view(v: Seq<(String, String)>) -> Seq<(Seq<char>, Seq<char>)> {
    v.map_values(|e: (String, String)| (e.0@, e.1@))
}

pub open spec fn strings_view(v: Seq<String>) -> Seq<Seq<char>> {
    v.map_values(|e: String| e@)
}

/// The include resolver: the table from gadget name to include path, and the
/// gadgets used so far.
pub struct ComponentIncludes {
    known: Vec<(String, String)>,
    used: Vec<String>,
}

impl ComponentIncludes {
    pub closed spec fn known_view(&self) -> Seq<(Seq<char>, Seq<char>)> {
        pairs_view(self.known@)
    }

    pub closed spec fn used_view(&self) -> Seq<Seq<char>> {
        strings_view(self.used@)
    }

    pub fn new(known: Vec<(String, String)>) -> (r: Self)
        ensures
            r.known_view() == pairs_view(known@),
            r.used_view() == Seq::<Seq<char>>::empty(),
    {
        let r = ComponentIncludes { known, used: Vec::new() };
        assert(strings_view(r.used@) =~= Seq::<Seq<char>>::empty());
        r
    }

    /// Records the gadgets that `instructions` instantiate.
    pub fn extract_component_usages(&mut self, instructions: &Vec<CircomInstr>)
        ensures
            final(self).known_view() == old(self).known_view(),
            final(self).used_view() == used_after(old(self).used_view(), instrs_view(instructions@)),
    {
        let ghost xs = instrs_view(instructions@);
        let mut i: usize = 0;
        assert(xs.subrange(0, 0) =~= Seq::<InstrView>::empty());
        while i < instructions.len()
            invariant
                xs == instrs_view(instructions@),
                i <= xs.len(),
                self.known_view() == old(self).known_view(),
                self.used_view() == used_after(old(self).used_view(), xs.subrange(0, i as int)),
            decreases xs.len() - i,
        {
            let ghost pre = xs.subrange(0, i + 1);
            assert(pre.drop_last() =~= xs.subrange(0, i as int));
            assert(pre.last() == instructions@[i as int]@);
            if let CircomInstr::ComponentInstatiation(inst) = &instructions[i] {
                let mut j: usize = 0;
                let mut seen = false;
                while j < self.used.len()
                    invariant
                        j <= self.used@.len(),
                        seen == exists|q: int| 0 <= q < j && self.used_view()[q] == inst.component@,
                    decreases self.used@.len() - j,
                {
                    assert(self.used_view()[j as int] == self.used@[j as int]@);
                    if self.used[j] == inst.component {
                        seen = true;
                    }
                    assert(seen == exists|q: int| 0 <= q < j + 1 && self.used_view()[q] == inst.component@) by {
                        if exists|q: int| 0 <= q < j + 1 && self.used_view()[q] == inst.component@ {
                            let q = choose|q: int| 0 <= q < j + 1 && self.used_view()[q] == inst.component@;
                            if q < j {
                                assert(exists|q: int| 0 <= q < j && self.used_view()[q] == inst.component@);
                            }
                        }
                    }
                    j = j + 1;
                }
                proof {
                    if seen {
                        let q = choose|q: int| 0 <= q < j && self.used_view()[q] == inst.component@;
                        assert(self.used_view().contains(inst.component@));
                    } else {
                        assert(!self.used_view().contains(inst.component@));
                    }
                }
                if !seen {
                    let ghost before = self.used_view();
                    let mut used = Vec::new();
                    std::mem::swap(&mut used, &mut self.used);
                    used.push(inst.component.clone());
                    self.used = used;
                    assert(self.used_view() =~= before.push(inst.component@));
                }
            }
            i = i + 1;
        }
        assert(xs.subrange(0, xs.len() as int) =~= xs);
    }

    /// The include directives of the used gadgets that have a known path.
    pub fn component_includes(&self) -> (r: Vec<String>)
        ensures
            strings_view(r@) == includes_spec(self.known_view(), self.used_view()),
    {
        let mut r: Vec<String> = Vec::new();
        let mut i: usize = 0;
        let ghost us = self.used_view();
        assert(us.subrange(0, 0) =~= Seq::<Seq<char>>::empty());
        assert(strings_view(r@) =~= Seq::<Seq<char>>::empty());
        while i < self.used.len()
            invariant
                us == self.used_view(),
                i <= us.len(),
                strings_view(r@) == includes_spec(self.known_view(), us.subrange(0, i as int)),
            decreases us.len() - i,
        {
            let ghost pre = us.subrange(0, i + 1);
            assert(pre.drop_last() =~= us.subrange(0, i as int));
            let ghost before = strings_view(r@);
            match self.find_known(&self.used[i]) {
                Some(k) => {
                    let mut line = String::from_str("include \"");
                    line.append(self.known[k].1.as_str());
                    line.append("\";");
                    if !contains_string(&r, &line) {
                        r.push(line);
                        assert(strings_view(r@) =~= before.push(include_line(self.known_view()[k as int].1)));
                    }
                },
                None => {},
            }
            i = i + 1;
        }
        assert(us.subrange(0, us.len() as int) =~= us);
        r
    }

    fn find_known(&self, g: &String) -> (r: Option<usize>)
        ensures
            r matches Some(k) ==> k < self.known@.len() && lookup(self.known_view(), g@) == Some(self.known_view()[k as int].1),
            r is None ==> lookup(self.known_view(), g@) is None,
    {
        let ghost kv = self.known_view();
        let mut i: usize = 0;
        while i < self.known.len()
            invariant
                kv == self.known_view(),
                i <= kv.len(),
                lookup(kv.subrange(0, i as int), g@) is None,
            decreases kv.len() - i,
        {
            let ghost pre = kv.subrange(0, i + 1);
            assert(pre.drop_last() =~= kv.subrange(0, i as int));
            if self.known[i].0 == *g {
                proof {
                    lemma_lookup_prefix(kv, i + 1, g@);
                }
                return Some(i);
            }
            i = i + 1;
        }
        assert(kv.subrange(0, kv.len() as int) =~= kv);
        None
    }
}

/// Whether `s` is among the strings of `v`.
fn contains_string(v: &Vec<String>, s: &String) -> (b: bool)
    ensures
        b == strings_view(v@).contains(s@),
{
    let mut i: usize = 0;
    while i < v.len()
        invariant
            i <= v@.len(),
            forall|j: int| 0 <= j < i ==> strings_view(v@)[j] != s@,
        decreases v@.len() - i,
    {
        if v[i] == *s {
            assert(strings_view(v@)[i as int] == s@);
            return true;
        }
        i = i + 1;
    }
    false
}

proof fn lemma_lookup_prefix(kv: Seq<(Seq<char>, Seq<char>)>, n: int, g: Seq<char>)
    requires
        0 <= n <= kv.len(),
        lookup(kv.subrange(0, n), g) is Some,
    ensures
        lookup(kv, g) == lookup(kv.subrange(0, n), g),
    decreases kv.len() - n,
{
    if n < kv.len() {
        let p = kv.subrange(0, n + 1);
        assert(p.drop_last() =~= kv.subrange(0, n));
        lemma_lookup_prefix(kv, n + 1, g);
    } else {
        assert(kv.subrange(0, n) =~= kv);
    }
}

/// The gadgets of the circuit library this translator knows, with their
/// include paths.
pub fn known_components() -> (r: Vec<(String, String)>)
    ensures
        pairs_view(r@) == seq![("IsEqual"@, "circomlib/circuits/comparators.circom"@)],
{
    let mut r = Vec::new();
    r.push((String::from_str("IsEqual"), String::from_str("circomlib/circuits/comparators.circom")));
    assert(pairs_view(r@) =~= seq![("IsEqual"@, "circomlib/circuits/comparators.circom"@)]);
    r
}

/// The gadgets used by the first `k` templates.
pub open spec fn used_by_templates(ts: Seq<TemplateView>, k: int) -> Seq<Seq<char>>
    decreases k,
{
    if k <= 0 {
        Seq::empty()
    } else {
        used_after(used_by_templates(ts, k - 1), ts[k - 1].instructions)
    }
}

pub open spec fn templates_view(ts: Seq<Template>) -> Seq<TemplateView> {
    ts.map_values(|t: Template| t@)
}

/// Each line followed by a newline.
pub open spec fn lines_text(ls: Seq<Seq<char>>) -> Seq<char>
    decreases ls.len(),
{
    if ls.len() == 0 {
        Seq::empty()
    } else {
        lines_text(ls.drop_last()) + ls.last() + "\n"@
    }
}

/// Each template's text followed by a blank line.
pub open spec fn templates_text(ts: Seq<TemplateView>) -> Seq<char>
    decreases ts.len(),
{
    if ts.len() == 0 {
        Seq::empty()
    } else {
        templates_text(ts.drop_last()) + template_text(ts.last()) + "\n\n"@
    }
}

/// A whole circuit module: templates, include directives, main component.
pub struct CircomModule {
    templates: Vec<Template>,
    component_includes: ComponentIncludes,
    main: String,
}

impl CircomModule {
    pub closed spec fn templates_view(&self) -> Seq<TemplateView> {
        templates_view(self.templates@)
    }

    pub closed spec fn main_view(&self) -> Seq<char> {
        self.main@
    }

    /// The include lines of the module.
    pub closed spec fn include_lines(&self) -> Seq<Seq<char>> {
        includes_spec(self.component_includes.known_view(), self.component_includes.used_view())
    }

    /// The module of `templates` whose entry is the template `main`, with the
    /// gadget table `known_components`.
    pub fn new(templates: Vec<Template>, known_components: Vec<(String, String)>, main: String) -> (r: Self)
        ensures
            r.templates_view() == templates_view(templates@),
            r.main_view() == main@,
            r.include_lines() == includes_spec(
                pairs_view(known_components@),
                used_by_templates(templates_view(templates@), templates@.len() as int),
            ),
    {
        let mut component_includes = ComponentIncludes::new(known_components);
        let ghost tv = templates_view(templates@);
        let mut i: usize = 0;
        while i < templates.len()
            invariant
                tv == templates_view(templates@),
                i <= templates@.len(),
                component_includes.known_view() == pairs_view(known_components@),
                component_includes.used_view() == used_by_templates(tv, i as int),
            decreases templates@.len() - i,
        {
            component_includes.extract_component_usages(&templates[i].instructions);
            assert(tv[i as int].instructions == instrs_view(templates@[i as int].instructions@));
            i = i + 1;
        }
        CircomModule { templates, component_includes, main }
    }

    /// `pragma circom 2.2.2;` and a newline.
    pub fn pragma(&self) -> (r: String)
        ensures
            r@ == "pragma circom 2.2.2;\n"@,
    {
        String::from_str("pragma circom 2.2.2;\n")
    }

    /// The include lines, each followed by a newline.
    pub fn includes(&self) -> (r: String)
        ensures
            r@ == lines_text(self.include_lines()),
    {
        let lines = self.component_includes.component_includes();
        let mut r = String::new();
        let mut i: usize = 0;
        let ghost ls = strings_view(lines@);
        assert(ls.subrange(0, 0) =~= Seq::<Seq<char>>::empty());
        while i < lines.len()
            invariant
                ls == strings_view(lines@),
                i <= ls.len(),
                r@ == lines_text(ls.subrange(0, i as int)),
            decreases ls.len() - i,
        {
            let ghost pre = ls.subrange(0, i + 1);
            assert(pre.drop_last() =~= ls.subrange(0, i as int));
            r.append(lines[i].as_str());
            r.append("\n");
            i = i + 1;
        }
        assert(ls.subrange(0, ls.len() as int) =~= ls);
        r
    }

    /// The templates' text, each followed by a blank line.
    pub fn templates(&self) -> (r: String)
        ensures
            r@ == templates_text(self.templates_view()),
    {
        let mut r = String::new();
        let mut i: usize = 0;
        let ghost tv = templates_view(self.templates@);
        assert(tv.subrange(0, 0) =~= Seq::<TemplateView>::empty());
        while i < self.templates.len()
            invariant
                tv == templates_view(self.templates@),
                i <= tv.len(),
                r@ == templates_text(tv.subrange(0, i as int)),
            decreases tv.len() - i,
        {
            let ghost pre = tv.subrange(0, i + 1);
            assert(pre.drop_last() =~= tv.subrange(0, i as int));
            let t = self.templates[i].to_circom();
            r.append(t.as_str());
            r.append("\n\n");
            i = i + 1;
        }
        assert(tv.subrange(0, tv.len() as int) =~= tv);
        r
    }

    /// `component main = <main>();`
    pub fn main_component(&self) -> (r: String)
        ensures
            r@ == "component main = "@ + self.main_view() + "();"@,
    {
        let mut r = String::from_str("component main = ");
        r.append(self.main.as_str());
        r.append("();");
        r
    }
}

impl CircomCodeGenerator for CircomModule {
    open spec fn circom_text(&self) -> Seq<char> {
        "pragma circom 2.2.2;\n"@ + lines_text(self.include_lines()) + "\n\n"@ + templates_text(self.templates_view())
            + "component main = "@ + self.main_view() + "();"@
    }

    fn to_circom(&self) -> (r: String) {
        let mut code = self.pragma();
        code.append(self.includes().as_str());
        code.append("\n\n");
        code.append(self.templates().as_str());
        code.append(self.main_component().as_str());
        code
    }
}

} // verus!
