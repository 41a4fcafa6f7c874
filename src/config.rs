//! Bank configurations and their resolution.
//!
//! Every bank's configuration is the built-in default, overlaid with the
//! entry named `default`, overlaid with the bank's own entry. Scalar fields
//! of an overlay replace the base value when present. A label mapping of an
//! overlay replaces, label by label, the phrase list of the base; labels the
//! overlay does not name are inherited unchanged.

use vstd::prelude::*;
use crate::classify::{has_pair, index_of, index_wf, lemma_index_unique, lemma_mapping_pairs_lists, lists_phrase, mapping_pairs, mapping_view, phrases_view};
use crate::text::lower_of;

verus! {

/// The label mapping that a sequence denotes: a later entry replaces an
/// earlier one with the same label.
pub open spec fn label_map(m: Seq<(Seq<char>, Seq<Seq<char>>)>) -> Map<Seq<char>, Seq<Seq<char>>>
    decreases m.len(),
{
    if m.len() == 0 {
        Map::empty()
    } else {
        label_map(m.drop_last()).insert(m.last().0, m.last().1)
    }
}

pub open spec fn labels_unique(m: Seq<(Seq<char>, Seq<Seq<char>>)>) -> bool {
    forall|i: int, j: int| 0 <= i < j < m.len() ==> #[trigger] m[i].0 != #[trigger] m[j].0
}

/// The entries of `m` are exactly the label/phrases pairs of `lm`.
pub open spec fn holds_map(m: Seq<(Seq<char>, Seq<Seq<char>>)>, lm: Map<Seq<char>, Seq<Seq<char>>>) -> bool {
    &&& forall|i: int| 0 <= i < m.len() ==> lm.contains_key(#[trigger] m[i].0) && lm[m[i].0] == m[i].1
    &&& forall|k: Seq<char>| #[trigger] lm.contains_key(k) ==> exists|i: int| 0 <= i < m.len() && m[i].0 == k
}

/// The labels of a mapping, as a map.
pub open spec fn labels_of(m: Vec<(String, Vec<String>)>) -> Map<Seq<char>, Seq<Seq<char>>> {
    label_map(mapping_view(m@))
}

proof fn lemma_holds_label_map(m: Seq<(Seq<char>, Seq<Seq<char>>)>)
    requires
        labels_unique(m),
    ensures
        holds_map(m, label_map(m)),
    decreases m.len(),
{
    if m.len() > 0 {
        let p = m.drop_last();
        let n = m.len() - 1;
        assert forall|i: int, j: int| 0 <= i < j < p.len() implies #[trigger] p[i].0 != #[trigger] p[j].0 by {
            assert(m[i].0 != m[j].0);
        }
        lemma_holds_label_map(p);
        let lm = label_map(m);
        assert forall|i: int| 0 <= i < m.len() implies lm.contains_key(#[trigger] m[i].0) && lm[m[i].0] == m[i].1 by {
            if i < n {
                assert(m[i].0 != m[n].0);
                assert(p[i] == m[i]);
            }
        }
        assert forall|k: Seq<char>| #[trigger] lm.contains_key(k) implies exists|i: int| 0 <= i < m.len() && m[i].0 == k by {
            if k != m[n].0 {
                let i = choose|i: int| 0 <= i < p.len() && p[i].0 == k;
                assert(m[i].0 == k);
            } else {
                assert(m[n].0 == k);
            }
        }
    }
}

proof fn lemma_holds_same(m: Seq<(Seq<char>, Seq<Seq<char>>)>, a: Map<Seq<char>, Seq<Seq<char>>>, b: Map<Seq<char>, Seq<Seq<char>>>)
    requires
        holds_map(m, a),
        holds_map(m, b),
    ensures
        a == b,
{
    assert forall|k: Seq<char>| a.contains_key(k) == b.contains_key(k) by {
        if a.contains_key(k) {
            let i = choose|i: int| 0 <= i < m.len() && m[i].0 == k;
            assert(b.contains_key(m[i].0));
        }
        if b.contains_key(k) {
            let i = choose|i: int| 0 <= i < m.len() && m[i].0 == k;
            assert(a.contains_key(m[i].0));
        }
    }
    assert forall|k: Seq<char>| a.contains_key(k) implies a[k] == b[k] by {
        let i = choose|i: int| 0 <= i < m.len() && m[i].0 == k;
        assert(a[m[i].0] == m[i].1);
    }
    assert(a =~= b);
}

fn copy_phrases(v: &Vec<String>) -> (r: Vec<String>)
    ensures
        phrases_view(r@) == phrases_view(v@),
{
    let mut r: Vec<String> = Vec::new();
    let mut i: usize = 0;
    while i < v.len()
        invariant
            0 <= i <= v.len(),
            r.len() == i,
            forall|k: int| 0 <= k < i ==> #[trigger] r@[k]@ == v@[k]@,
        decreases v.len() - i,
    {
        r.push(v[i].clone());
        i += 1;
    }
    assert(phrases_view(r@) =~= phrases_view(v@));
    r
}

fn copy_mapping(m: &Vec<(String, Vec<String>)>) -> (r: Vec<(String, Vec<String>)>)
    ensures
        mapping_view(r@) == mapping_view(m@),
{
    let mut r: Vec<(String, Vec<String>)> = Vec::new();
    let mut i: usize = 0;
    while i < m.len()
        invariant
            0 <= i <= m.len(),
            r.len() == i,
            forall|k: int| 0 <= k < i ==> #[trigger] r@[k].0@ == m@[k].0@ && phrases_view(r@[k].1@) == phrases_view(m@[k].1@),
        decreases m.len() - i,
    {
        r.push((m[i].0.clone(), copy_phrases(&m[i].1)));
        i += 1;
    }
    assert(mapping_view(r@) =~= mapping_view(m@));
    r
}

/// Sets the phrases of `label`: in place when the label is present,
/// appended otherwise.
fn put_label(res: &mut Vec<(String, Vec<String>)>, label: String, phrases: Vec<String>)
    requires
        labels_unique(mapping_view(old(res)@)),
    ensures
        labels_unique(mapping_view(final(res)@)),
        forall|lm: Map<Seq<char>, Seq<Seq<char>>>|
            holds_map(mapping_view(old(res)@), lm) ==> #[trigger] holds_map(
                mapping_view(final(res)@),
                lm.insert(label@, phrases_view(phrases@)),
            ),
{
    let ghost e = mapping_view(res@);
    let ghost k = label@;
    let ghost l = phrases_view(phrases@);
    let mut i: usize = 0;
    while i < res.len()
        invariant
            0 <= i <= res.len(),
            e == mapping_view(res@),
            e.len() == res.len(),
            res@ == old(res)@,
            labels_unique(e),
            k == label@,
            l == phrases_view(phrases@),
            forall|j: int| 0 <= j < i ==> #[trigger] e[j].0 != k,
        decreases res.len() - i,
    {
        if res[i].0 == label {
            let ghost old_res = res@;
            let item = (label, phrases);
            assert(item.0@ == k && phrases_view(item.1@) == l);
            res.set(i, item);
            let ghost e2 = mapping_view(res@);
            assert(res@ == old_res.update(i as int, item));
            assert(e2[i as int] == (k, l));
            assert(e[i as int].0 == k);
            assert(e2 =~= e.update(i as int, (k, l)));
            assert forall|a: int, b: int| 0 <= a < b < e2.len() implies #[trigger] e2[a].0 != #[trigger] e2[b].0 by {
                assert(e[a].0 != e[b].0);
            }
            assert forall|m: Map<Seq<char>, Seq<Seq<char>>>|
                holds_map(e, m) implies #[trigger] holds_map(e2, m.insert(k, l)) by {
                let m2 = m.insert(k, l);
                assert forall|j: int| 0 <= j < e2.len() implies m2.contains_key(#[trigger] e2[j].0) && m2[e2[j].0] == e2[j].1 by {
                    if j != i {
                        assert(e[j].0 != e[i as int].0);
                    }
                }
                assert forall|k2: Seq<char>| #[trigger] m2.contains_key(k2) implies exists|j: int|
                    0 <= j < e2.len() && e2[j].0 == k2 by {
                    if k2 != k {
                        let j = choose|j: int| 0 <= j < e.len() && e[j].0 == k2;
                        assert(e2[j].0 == k2);
                    } else {
                        assert(e2[i as int].0 == k2);
                    }
                }
            }
            return;
        }
        i += 1;
    }
    let ghost n = e.len();
    res.push((label, phrases));
    let ghost e2 = mapping_view(res@);
    assert(e2 =~= e.push((k, l)));
    assert forall|a: int, b: int| 0 <= a < b < e2.len() implies #[trigger] e2[a].0 != #[trigger] e2[b].0 by {
        if b < n {
            assert(e[a].0 != e[b].0);
        }
    }
    assert forall|m: Map<Seq<char>, Seq<Seq<char>>>|
        holds_map(e, m) implies #[trigger] holds_map(e2, m.insert(k, l)) by {
        let m2 = m.insert(k, l);
        assert forall|j: int| 0 <= j < e2.len() implies m2.contains_key(#[trigger] e2[j].0) && m2[e2[j].0] == e2[j].1 by {
            if j < n {
                assert(e2[j] == e[j]);
            }
        }
        assert forall|k2: Seq<char>| #[trigger] m2.contains_key(k2) implies exists|j: int|
            0 <= j < e2.len() && e2[j].0 == k2 by {
            if k2 != k {
                let j = choose|j: int| 0 <= j < e.len() && e[j].0 == k2;
                assert(e2[j].0 == k2);
            } else {
                assert(e2[n as int].0 == k2);
            }
        }
    }
}

/// Overlays `over` onto `base`: each label of `over` replaces that label's
/// phrase list; the other labels of `base` are kept.
pub fn merge_mapping(base: &Vec<(String, Vec<String>)>, over: &Vec<(String, Vec<String>)>) -> (r: Vec<(String, Vec<String>)>)
    requires
        labels_unique(mapping_view(base@)),
    ensures
        labels_unique(mapping_view(r@)),
        labels_of(r) == labels_of(*base).union_prefer_right(labels_of(*over)),
{
    let ghost bm = labels_of(*base);
    let ghost ov = mapping_view(over@);
    let mut res = copy_mapping(base);
    proof {
        lemma_holds_label_map(mapping_view(base@));
        assert(ov.take(0) =~= seq![]);
        assert(bm.union_prefer_right(label_map(ov.take(0))) =~= bm);
    }
    let mut j: usize = 0;
    while j < over.len()
        invariant
            0 <= j <= over.len(),
            ov == mapping_view(over@),
            labels_unique(mapping_view(res@)),
            holds_map(mapping_view(res@), bm.union_prefer_right(label_map(ov.take(j as int)))),
        decreases over.len() - j,
    {
        let ghost before = bm.union_prefer_right(label_map(ov.take(j as int)));
        let label = over[j].0.clone();
        let phrases = copy_phrases(&over[j].1);
        proof {
            assert(ov.take(j as int + 1).drop_last() =~= ov.take(j as int));
            assert(bm.union_prefer_right(label_map(ov.take(j as int + 1))) =~= before.insert(
                label@,
                phrases_view(phrases@),
            ));
        }
        put_label(&mut res, label, phrases);
        j += 1;
    }
    proof {
        assert(ov.take(over.len() as int) =~= ov);
        lemma_holds_label_map(mapping_view(res@));
        lemma_holds_same(mapping_view(res@), label_map(mapping_view(res@)), bm.union_prefer_right(labels_of(*over)));
    }
    res
}

/// The label used when nothing more specific is known.
pub const UNKNOWN_LABEL: &'static str = "Unknown";

/// The identifier of the entry that seeds every bank's configuration.
pub const DEFAULT_BANK_CFG: &'static str = "default";

pub const DEFAULT_FILE_NAME: &'static str = "config.conf";

pub const DEFAULT_DIR_CFG: &'static str = ".hbc";

#[derive(Debug, Clone)]
pub struct CategoryMappingConfig {
    pub default: String,
    pub mapping: Vec<(String, Vec<String>)>,
}

#[derive(Debug, Clone)]
pub struct PayeeMappingConfig {
    pub mapping: Vec<(String, Vec<String>)>,
}

#[derive(Debug, Clone)]
pub struct BankConfig {
    pub income: String,
    pub category: CategoryMappingConfig,
    pub payee: PayeeMappingConfig,
}

/// What a bank configuration means: its scalar labels and its two label
/// mappings.
pub struct BankConfigView {
    pub income: Seq<char>,
    pub category_default: Seq<char>,
    pub category: Map<Seq<char>, Seq<Seq<char>>>,
    pub payee: Map<Seq<char>, Seq<Seq<char>>>,
}

impl View for BankConfig {
    type V = BankConfigView;

    open spec fn view(&self) -> BankConfigView {
        BankConfigView {
            income: self.income@,
            category_default: self.category.default@,
            category: labels_of(self.category.mapping),
            payee: labels_of(self.payee.mapping),
        }
    }
}

impl BankConfig {
    /// Each mapping names a label at most once.
    pub open spec fn wf(&self) -> bool {
        &&& labels_unique(mapping_view(self.category.mapping@))
        &&& labels_unique(mapping_view(self.payee.mapping@))
    }

    /// The two configurations are equal field by field, mappings in order.
    pub open spec fn same_as(&self, o: BankConfig) -> bool {
        &&& self.income@ == o.income@
        &&& self.category.default@ == o.category.default@
        &&& mapping_view(self.category.mapping@) == mapping_view(o.category.mapping@)
        &&& mapping_view(self.payee.mapping@) == mapping_view(o.payee.mapping@)
    }
}

/// The built-in configuration: every label `Unknown`, no mappings.
pub open spec fn builtin_view() -> BankConfigView {
    BankConfigView {
        income: UNKNOWN_LABEL@,
        category_default: UNKNOWN_LABEL@,
        category: Map::empty(),
        payee: Map::empty(),
    }
}

impl Default for CategoryMappingConfig {
    fn default() -> (r: Self)
        ensures
            r.default@ == UNKNOWN_LABEL@,
            r.mapping@.len() == 0,
    {
        CategoryMappingConfig { default: String::from_str(UNKNOWN_LABEL), mapping: Vec::new() }
    }
}

impl Default for PayeeMappingConfig {
    fn default() -> (r: Self)
        ensures
            r.mapping@.len() == 0,
    {
        PayeeMappingConfig { mapping: Vec::new() }
    }
}

impl Default for BankConfig {
    fn default() -> (r: Self)
        ensures
            r.wf(),
            r@ == builtin_view(),
            r.category.mapping@.len() == 0,
            r.payee.mapping@.len() == 0,
    {
        let r = BankConfig {
            income: String::from_str(UNKNOWN_LABEL),
            category: CategoryMappingConfig::default(),
            payee: PayeeMappingConfig::default(),
        };
        assert(mapping_view(r.category.mapping@) =~= seq![]);
        assert(mapping_view(r.payee.mapping@) =~= seq![]);
        assert(labels_of(r.category.mapping) =~= Map::empty());
        assert(labels_of(r.payee.mapping) =~= Map::empty());
        r
    }
}

fn copy_config(c: &BankConfig) -> (r: BankConfig)
    ensures
        r.same_as(*c),
        r@ == c@,
        c.wf() ==> r.wf(),
{
    BankConfig {
        income: c.income.clone(),
        category: CategoryMappingConfig {
            default: c.category.default.clone(),
            mapping: copy_mapping(&c.category.mapping),
        },
        payee: PayeeMappingConfig { mapping: copy_mapping(&c.payee.mapping) },
    }
}

/// The category part of a bank's entry in the configuration source; every
/// field is optional.
#[derive(Debug, Clone)]
pub struct CategoryMapping {
    pub default: Option<String>,
    pub mapping: Option<Vec<(String, Vec<String>)>>,
}

/// The payee part of a bank's entry in the configuration source.
#[derive(Debug, Clone)]
pub struct PayeeMapping {
    pub mapping: Option<Vec<(String, Vec<String>)>>,
}

/// A bank's entry in the configuration source, before resolution.
#[derive(Debug, Clone)]
pub struct Bank {
    pub income: Option<String>,
    pub category: Option<CategoryMapping>,
    pub payee: Option<PayeeMapping>,
}

pub open spec fn or_base(o: Option<String>, base: Seq<char>) -> Seq<char> {
    match o {
        Some(s) => s@,
        None => base,
    }
}

/// A base mapping with an optional overlay applied.
pub open spec fn merged_labels(
    base: Map<Seq<char>, Seq<Seq<char>>>,
    over: Option<Vec<(String, Vec<String>)>>,
) -> Map<Seq<char>, Seq<Seq<char>>> {
    match over {
        Some(o) => base.union_prefer_right(labels_of(o)),
        None => base,
    }
}

/// The configuration that entry `b` resolves to on top of `base`.
pub open spec fn bank_resolved(b: Bank, base: BankConfigView) -> BankConfigView {
    BankConfigView {
        income: or_base(b.income, base.income),
        category_default: match b.category {
            Some(c) => or_base(c.default, base.category_default),
            None => base.category_default,
        },
        category: match b.category {
            Some(c) => merged_labels(base.category, c.mapping),
            None => base.category,
        },
        payee: match b.payee {
            Some(p) => merged_labels(base.payee, p.mapping),
            None => base.payee,
        },
    }
}

fn overlay_mapping(base: &Vec<(String, Vec<String>)>, over: &Option<Vec<(String, Vec<String>)>>) -> (r: Vec<(String, Vec<String>)>)
    requires
        labels_unique(mapping_view(base@)),
    ensures
        labels_unique(mapping_view(r@)),
        labels_of(r) == merged_labels(labels_of(*base), *over),
        over is None ==> mapping_view(r@) == mapping_view(base@),
{
    match over {
        Some(v) => merge_mapping(base, v),
        None => copy_mapping(base),
    }
}

fn overlay_label(base: &String, over: &Option<String>) -> (r: String)
    ensures
        r@ == or_base(*over, base@),
{
    match over {
        Some(v) => v.clone(),
        None => base.clone(),
    }
}

impl CategoryMapping {
    /// Resolves this entry on top of `base_cfg`.
    pub fn into(&self, base_cfg: &CategoryMappingConfig) -> (r: CategoryMappingConfig)
        requires
            labels_unique(mapping_view(base_cfg.mapping@)),
        ensures
            r.default@ == or_base(self.default, base_cfg.default@),
            labels_unique(mapping_view(r.mapping@)),
            labels_of(r.mapping) == merged_labels(labels_of(base_cfg.mapping), self.mapping),
            self.mapping is None ==> mapping_view(r.mapping@) == mapping_view(base_cfg.mapping@),
    {
        CategoryMappingConfig {
            default: overlay_label(&base_cfg.default, &self.default),
            mapping: overlay_mapping(&base_cfg.mapping, &self.mapping),
        }
    }
}

impl PayeeMapping {
    /// Resolves this entry on top of `base_cfg`.
    pub fn into(&self, base_cfg: &PayeeMappingConfig) -> (r: PayeeMappingConfig)
        requires
            labels_unique(mapping_view(base_cfg.mapping@)),
        ensures
            labels_unique(mapping_view(r.mapping@)),
            labels_of(r.mapping) == merged_labels(labels_of(base_cfg.mapping), self.mapping),
            self.mapping is None ==> mapping_view(r.mapping@) == mapping_view(base_cfg.mapping@),
    {
        PayeeMappingConfig { mapping: overlay_mapping(&base_cfg.mapping, &self.mapping) }
    }
}

impl Bank {
    /// Resolves this entry on top of `base`. A field the entry leaves out
    /// is inherited unchanged.
    pub fn into(&self, base: &BankConfig) -> (r: BankConfig)
        requires
            base.wf(),
        ensures
            r.wf(),
            r@ == bank_resolved(*self, base@),
            self.income is None && self.category is None && self.payee is None ==> r.same_as(*base),
    {
        let income = overlay_label(&base.income, &self.income);
        let category = match &self.category {
            Some(c) => c.into(&base.category),
            None => CategoryMappingConfig {
                default: base.category.default.clone(),
                mapping: copy_mapping(&base.category.mapping),
            },
        };
        let payee = match &self.payee {
            Some(p) => p.into(&base.payee),
            None => PayeeMappingConfig { mapping: copy_mapping(&base.payee.mapping) },
        };
        BankConfig { income, category, payee }
    }
}

/// Position of the first entry at or after `i` named `default`, or the
/// number of entries when there is none.
pub open spec fn default_index_from(raw: Seq<(String, Bank)>, i: int) -> int
    decreases raw.len() - i,
{
    if i >= raw.len() {
        raw.len() as int
    } else if raw[i].0@ == DEFAULT_BANK_CFG@ {
        i
    } else {
        default_index_from(raw, i + 1)
    }
}

/// The effective default configuration: the first `default` entry resolved
/// on top of the built-in configuration, or the built-in one alone.
pub open spec fn default_resolved(raw: Seq<(String, Bank)>) -> BankConfigView {
    let i = default_index_from(raw, 0);
    if 0 <= i < raw.len() {
        bank_resolved(raw[i].1, builtin_view())
    } else {
        builtin_view()
    }
}

/// The effective configuration of the entry at `i`.
pub open spec fn entry_resolved(raw: Seq<(String, Bank)>, i: int) -> BankConfigView {
    if raw[i].0@ == DEFAULT_BANK_CFG@ {
        default_resolved(raw)
    } else {
        bank_resolved(raw[i].1, default_resolved(raw))
    }
}

/// `r` holds, entry by entry, the effective configuration of each bank of `raw`.
pub open spec fn resolved_all(r: Seq<(String, BankConfig)>, raw: Seq<(String, Bank)>) -> bool {
    &&& r.len() == raw.len()
    &&& forall|i: int|
        0 <= i < r.len() ==> #[trigger] r[i].0@ == raw[i].0@ && r[i].1.wf() && r[i].1@ == entry_resolved(raw, i)
}

pub open spec fn entry_ok(r: (String, BankConfig), raw: Seq<(String, Bank)>, k: int) -> bool {
    r.0@ == raw[k].0@ && r.1.wf() && r.1@ == entry_resolved(raw, k)
}

/// Resolves every bank of a parsed configuration source: the `default`
/// entry on top of the built-in configuration, every other entry on top of
/// that effective default.
pub fn load_config(raw_config: &Vec<(String, Bank)>) -> (r: Vec<(String, BankConfig)>)
    ensures
        resolved_all(r@, raw_config@),
{
    let ghost raw = raw_config@;
    let default_key = String::from_str(DEFAULT_BANK_CFG);
    let mut idx: usize = 0;
    while idx < raw_config.len() && !(raw_config[idx].0 == default_key)
        invariant
            raw == raw_config@,
            default_key@ == DEFAULT_BANK_CFG@,
            0 <= idx <= raw_config.len(),
            default_index_from(raw, 0) == default_index_from(raw, idx as int),
        decreases raw_config.len() - idx,
    {
        idx += 1;
    }
    let builtin = BankConfig::default();
    let default_cfg = if idx < raw_config.len() {
        Bank::into(&raw_config[idx].1, &builtin)
    } else {
        builtin
    };
    assert(default_cfg@ == default_resolved(raw));
    let mut res: Vec<(String, BankConfig)> = Vec::new();
    let mut i: usize = 0;
    while i < raw_config.len()
        invariant
            raw == raw_config@,
            default_key@ == DEFAULT_BANK_CFG@,
            default_cfg.wf(),
            default_cfg@ == default_resolved(raw),
            0 <= i <= raw_config.len(),
            res.len() == i,
            forall|k: int| 0 <= k < i ==> entry_ok(#[trigger] res@[k], raw, k),
        decreases raw_config.len() - i,
    {
        let is_default = raw_config[i].0 == default_key;
        let cfg = if is_default {
            copy_config(&default_cfg)
        } else {
            Bank::into(&raw_config[i].1, &default_cfg)
        };
        assert(cfg.wf() && cfg@ == entry_resolved(raw, i as int));
        let key = raw_config[i].0.clone();
        let ghost before = res@;
        res.push((key, cfg));
        assert(res@ == before.push((key, cfg)));
        assert(entry_ok(res@[i as int], raw, i as int));
        assert forall|k: int| 0 <= k <= i implies entry_ok(#[trigger] res@[k], raw, k) by {
            if k < i {
                assert(res@[k] == before[k]);
            }
        }
        i += 1;
    }
    res
}

/// Why a configuration could not be had.
#[derive(Debug, Clone, PartialEq)]
pub enum ConfigurationError {
    /// A configuration file was asked for by path and does not exist.
    FileNotFound(String),
    /// The configuration source is malformed; the parser's message.
    Hocon(String),
}

/// What was found where the configuration file should be.
#[derive(Debug, Clone)]
pub enum ConfigDocument {
    /// No file at that path.
    Missing,
    /// A file that does not parse; the parser's message.
    Malformed(String),
    /// A parsed file: its bank entries.
    Parsed(Vec<(String, Bank)>),
}

/// The effective configuration of every bank, by identifier.
#[derive(Debug, Clone)]
pub struct Config {
    pub bank_config: Vec<(String, BankConfig)>,
}

impl Default for Config {
    fn default() -> (r: Self)
        ensures
            r.bank_config@.len() == 1,
            r.bank_config@[0].0@ == DEFAULT_BANK_CFG@,
            r.bank_config@[0].1.wf(),
            r.bank_config@[0].1@ == builtin_view(),
    {
        let mut bank_config: Vec<(String, BankConfig)> = Vec::new();
        bank_config.push((String::from_str(DEFAULT_BANK_CFG), BankConfig::default()));
        Config { bank_config }
    }
}

/// `r` is the configuration of the first entry of `banks` named `id`, or
/// nothing when no entry has that name.
pub open spec fn found_bank(banks: Seq<(String, BankConfig)>, id: Seq<char>, r: Option<&BankConfig>) -> bool {
    match r {
        Some(c) => exists|i: int|
            0 <= i < banks.len() && #[trigger] banks[i].0@ == id && banks[i].1 == *c && forall|j: int|
                0 <= j < i ==> #[trigger] banks[j].0@ != id,
        None => forall|i: int| 0 <= i < banks.len() ==> #[trigger] banks[i].0@ != id,
    }
}

impl Config {
    /// The configuration of the bank `id`, or of the `default` entry when
    /// no entry has that identifier.
    pub fn bank_or_default(&self, id: &String) -> (r: Option<&BankConfig>)
        ensures
            (exists|i: int| 0 <= i < self.bank_config@.len() && #[trigger] self.bank_config@[i].0@ == id@)
                ==> found_bank(self.bank_config@, id@, r),
            (forall|i: int| 0 <= i < self.bank_config@.len() ==> #[trigger] self.bank_config@[i].0@ != id@)
                ==> found_bank(self.bank_config@, DEFAULT_BANK_CFG@, r),
    {
        match self.bank(id) {
            Some(c) => Some(c),
            None => self.bank(&String::from_str(DEFAULT_BANK_CFG)),
        }
    }

    /// The effective configuration of the bank `id`: the first entry with
    /// that identifier, if any.
    pub fn bank(&self, id: &String) -> (r: Option<&BankConfig>)
        ensures
            found_bank(self.bank_config@, id@, r),
    {
        let mut i: usize = 0;
        while i < self.bank_config.len()
            invariant
                0 <= i <= self.bank_config@.len(),
                forall|j: int| 0 <= j < i ==> #[trigger] self.bank_config@[j].0@ != id@,
            decreases self.bank_config.len() - i,
        {
            if self.bank_config[i].0 == *id {
                return Some(&self.bank_config[i].1);
            }
            i += 1;
        }
        None
    }

    /// Builds the configuration from what was found at the configuration
    /// path. A missing file is an error only when its path was given
    /// explicitly; otherwise the built-in configuration is used.
    pub fn new(custom_path: Option<&str>, document: ConfigDocument) -> (r: Result<Config, ConfigurationError>)
        ensures
            match document {
                ConfigDocument::Missing => match custom_path {
                    Some(p) => r matches Err(ConfigurationError::FileNotFound(q)) && q@ == p@,
                    None => r matches Ok(c) && c.bank_config@.len() == 1
                        && c.bank_config@[0].0@ == DEFAULT_BANK_CFG@
                        && c.bank_config@[0].1@ == builtin_view(),
                },
                ConfigDocument::Malformed(m) => r matches Err(ConfigurationError::Hocon(q)) && q@ == m@,
                ConfigDocument::Parsed(raw) => r matches Ok(c) && resolved_all(c.bank_config@, raw@),
            },
    {
        match document {
            ConfigDocument::Missing => match custom_path {
                Some(p) => Err(ConfigurationError::FileNotFound(p.to_owned())),
                None => Ok(Config::default()),
            },
            ConfigDocument::Malformed(m) => Err(ConfigurationError::Hocon(m)),
            ConfigDocument::Parsed(raw) => Ok(Config { bank_config: load_config(&raw) }),
        }
    }
}

/// The configuration directory: `.hbc` under the home directory when one
/// is known, else `.hbc` relative to the working directory.
pub fn get_default_cfg_dir(home: Option<String>) -> (r: String)
    ensures
        r@ == get_default_cfg_dir_spec(home),
{
    match home {
        Some(h) => h.concat("/").concat(DEFAULT_DIR_CFG),
        None => String::from_str(DEFAULT_DIR_CFG),
    }
}

/// The configuration file's default path: `config.conf` in the
/// configuration directory.
pub fn get_default_file_path(home: Option<String>) -> (r: String)
    ensures
        r@ == get_default_cfg_dir_spec(home) + "/"@ + DEFAULT_FILE_NAME@,
{
    get_default_cfg_dir(home).concat("/").concat(DEFAULT_FILE_NAME)
}

pub open spec fn get_default_cfg_dir_spec(home: Option<String>) -> Seq<char> {
    match home {
        Some(h) => h@ + "/"@ + DEFAULT_DIR_CFG@,
        None => DEFAULT_DIR_CFG@,
    }
}

/// An entry that sets no label and maps no phrase.
pub open spec fn is_empty_override(b: Bank) -> bool {
    &&& b.income is None
    &&& match b.category {
        Some(c) => c.default is None && match c.mapping {
            Some(m) => m@.len() == 0,
            None => true,
        },
        None => true,
    }
    &&& match b.payee {
        Some(p) => match p.mapping {
            Some(m) => m@.len() == 0,
            None => true,
        },
        None => true,
    }
}

/// Resolving an entry that overrides nothing yields exactly the base
/// configuration.
pub proof fn lemma_empty_override_keeps_base(b: Bank, base: BankConfigView)
    requires
        is_empty_override(b),
    ensures
        bank_resolved(b, base) == base,
{
    assert forall|m: Vec<(String, Vec<String>)>| m@.len() == 0 implies #[trigger] labels_of(m) == Map::<Seq<char>, Seq<Seq<char>>>::empty() by {
        assert(mapping_view(m@) =~= seq![]);
    }
    assert forall|x: Map<Seq<char>, Seq<Seq<char>>>| #[trigger] x.union_prefer_right(Map::empty()) == x by {
        assert(x.union_prefer_right(Map::empty()) =~= x);
    }
}

/// An entry's label mapping replaces the phrases of each label it names,
/// rather than adding to them; labels it does not name keep the base's
/// phrases.
pub proof fn lemma_override_replaces_label(b: Bank, base: BankConfigView, label: Seq<char>)
    requires
        b.category matches Some(c) && c.mapping matches Some(o) && labels_of(o).contains_key(label),
    ensures
        bank_resolved(b, base).category.contains_key(label),
        bank_resolved(b, base).category[label] == labels_of(b.category->Some_0.mapping->Some_0)[label],
        forall|l: Seq<char>|
            #[trigger] base.category.contains_key(l) && !labels_of(b.category->Some_0.mapping->Some_0).contains_key(l)
                ==> bank_resolved(b, base).category.contains_key(l) && bank_resolved(b, base).category[l] == base.category[l],
{
}

proof fn lemma_lists_phrase_same(m1: Seq<(Seq<char>, Seq<Seq<char>>)>, m2: Seq<(Seq<char>, Seq<Seq<char>>)>, k: Seq<char>, l: Seq<char>)
    requires
        holds_map(m1, label_map(m1)),
        holds_map(m2, label_map(m1)),
        lists_phrase(m1, k, l),
    ensures
        lists_phrase(m2, k, l),
{
    let lm = label_map(m1);
    let (i, j) = choose|i: int, j: int|
        0 <= i < m1.len() && 0 <= j < m1[i].1.len() && m1[i].0 == l && lower_of(#[trigger] m1[i].1[j]) == k;
    assert(lm.contains_key(m1[i].0) && lm[m1[i].0] == m1[i].1);
    let i2 = choose|i2: int| 0 <= i2 < m2.len() && m2[i2].0 == l;
    assert(lm.contains_key(m2[i2].0) && lm[m2[i2].0] == m2[i2].1);
    assert(lower_of(m2[i2].1[j]) == k);
}

/// The keyword index depends on the label mapping's contents alone: two
/// mappings that give the same labels the same phrase lists, whatever the
/// order of their labels, have the same index.
pub proof fn lemma_index_ignores_label_order(
    m1: Seq<(Seq<char>, Seq<Seq<char>>)>,
    m2: Seq<(Seq<char>, Seq<Seq<char>>)>,
    e1: Seq<(Seq<char>, Seq<char>)>,
    e2: Seq<(Seq<char>, Seq<char>)>,
)
    requires
        labels_unique(m1),
        labels_unique(m2),
        label_map(m1) == label_map(m2),
        index_wf(e1),
        index_of(e1, mapping_pairs(m1)),
        index_wf(e2),
        index_of(e2, mapping_pairs(m2)),
    ensures
        e1 == e2,
{
    lemma_holds_label_map(m1);
    lemma_holds_label_map(m2);
    lemma_mapping_pairs_lists(m1);
    lemma_mapping_pairs_lists(m2);
    assert forall|k: Seq<char>, l: Seq<char>|
        #[trigger] has_pair(mapping_pairs(m1), k, l) == #[trigger] has_pair(mapping_pairs(m2), k, l) by {
        if lists_phrase(m1, k, l) {
            lemma_lists_phrase_same(m1, m2, k, l);
        }
        if lists_phrase(m2, k, l) {
            lemma_lists_phrase_same(m2, m1, k, l);
        }
    }
    lemma_index_unique(e1, e2, mapping_pairs(m1), mapping_pairs(m2));
}

} // verus!
