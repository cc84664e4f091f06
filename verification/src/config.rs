//! Item classes, their built-in order, and the `order` list of a TOML configuration.
use vstd::prelude::*;

use crate::text::{push_str, str_eq, string_of};

verus! {

#[derive(Clone, Copy, Debug, PartialEq, Eq, Hash, Structural)]
pub enum ItemKind {
    Use,
    Mod,
    /// A module named `tests` with a direct `#[cfg(test)]` attribute.
    TestModule,
}

#[derive(Clone, Copy, Debug, PartialEq, Eq, Hash, Structural)]
pub enum Visibility {
    Private,
    Crate,
    Public,
}

/// The class of a `use` or `mod` item: its kind and its visibility.
#[derive(Clone, Copy, Debug, PartialEq, Eq, Hash, Structural)]
pub struct ItemClass {
    pub kind: ItemKind,
    pub visibility: Visibility,
}

/// The text that names a visibility before `use` or `mod`.
pub open spec fn visibility_prefix(visibility: Visibility) -> Seq<char> {
    match visibility {
        Visibility::Private => Seq::empty(),
        Visibility::Crate => "pub(crate) "@,
        Visibility::Public => "pub "@,
    }
}

/// How a class is written: `use`, `pub(crate) mod`, `#[cfg(test)] mod tests`, ...
pub open spec fn class_text(class: ItemClass) -> Seq<char> {
    match class.kind {
        ItemKind::Use => visibility_prefix(class.visibility) + "use"@,
        ItemKind::Mod => visibility_prefix(class.visibility) + "mod"@,
        ItemKind::TestModule => "#[cfg(test)] "@ + visibility_prefix(class.visibility)
            + "mod tests"@,
    }
}

/// The conventional position of a class: private, `pub(crate)` and `pub` imports,
/// then private, `pub(crate)` and `pub` modules, then the test module.
pub open spec fn class_rank(class: ItemClass) -> nat {
    match class.kind {
        ItemKind::Use => match class.visibility {
            Visibility::Private => 0,
            Visibility::Crate => 1,
            Visibility::Public => 2,
        },
        ItemKind::Mod => match class.visibility {
            Visibility::Private => 3,
            Visibility::Crate => 4,
            Visibility::Public => 5,
        },
        ItemKind::TestModule => 6,
    }
}

/// The six classes that a configuration can name, in the conventional order.
pub open spec fn configurable_classes() -> Seq<ItemClass> {
    seq![
        ItemClass { kind: ItemKind::Use, visibility: Visibility::Private },
        ItemClass { kind: ItemKind::Use, visibility: Visibility::Crate },
        ItemClass { kind: ItemKind::Use, visibility: Visibility::Public },
        ItemClass { kind: ItemKind::Mod, visibility: Visibility::Private },
        ItemClass { kind: ItemKind::Mod, visibility: Visibility::Crate },
        ItemClass { kind: ItemKind::Mod, visibility: Visibility::Public },
    ]
}

/// The classes that a configuration can name.
pub open spec fn is_configurable(class: ItemClass) -> bool {
    class.kind != ItemKind::TestModule
}

impl ItemClass {
    pub fn new(kind: ItemKind, visibility: Visibility) -> (class: Self)
        ensures
            class.kind == kind,
            class.visibility == visibility,
    {
        ItemClass { kind, visibility }
    }

    /// The class that a configuration names by `value`, if any.
    pub fn parse(value: &str) -> (class: Option<Self>)
        ensures
            match class {
                Some(c) => is_configurable(c) && class_text(c) == value@,
                None => forall|c: ItemClass| is_configurable(c) ==> class_text(c) != value@,
            },
    {
        let classes = [
            ItemClass::new(ItemKind::Use, Visibility::Private),
            ItemClass::new(ItemKind::Use, Visibility::Crate),
            ItemClass::new(ItemKind::Use, Visibility::Public),
            ItemClass::new(ItemKind::Mod, Visibility::Private),
            ItemClass::new(ItemKind::Mod, Visibility::Crate),
            ItemClass::new(ItemKind::Mod, Visibility::Public),
        ];
        let mut i: usize = 0;
        while i < 6
            invariant
                classes@ == configurable_classes(),
                0 <= i <= 6,
                forall|j: int| 0 <= j < i ==> class_text(#[trigger] classes@[j]) != value@,
            decreases 6 - i,
        {
            let text = classes[i].to_string();
            if str_eq(text.as_str(), value) {
                return Some(classes[i]);
            }
            i = i + 1;
        }
        proof {
            assert forall|c: ItemClass| is_configurable(c) implies class_text(c) != value@ by {
                let j: int = match c.kind {
                    ItemKind::Use => match c.visibility {
                        Visibility::Private => 0,
                        Visibility::Crate => 1,
                        Visibility::Public => 2,
                    },
                    _ => match c.visibility {
                        Visibility::Private => 3,
                        Visibility::Crate => 4,
                        Visibility::Public => 5,
                    },
                };
                assert(classes@[j] == c);
            }
        }
        None
    }

    /// The class's position in the conventional order.
    pub fn rank(self) -> (rank: usize)
        ensures
            rank == class_rank(self),
    {
        match self.kind {
            ItemKind::Use => match self.visibility {
                Visibility::Private => 0,
                Visibility::Crate => 1,
                Visibility::Public => 2,
            },
            ItemKind::Mod => match self.visibility {
                Visibility::Private => 3,
                Visibility::Crate => 4,
                Visibility::Public => 5,
            },
            ItemKind::TestModule => 6,
        }
    }

    /// How the class is written.
    pub fn to_string(&self) -> (text: String)
        ensures
            text@ == class_text(*self),
    {
        let mut text = String::new();
        if self.kind == ItemKind::TestModule {
            push_str(&mut text, "#[cfg(test)] ");
        }
        match self.visibility {
            Visibility::Private => {},
            Visibility::Crate => push_str(&mut text, "pub(crate) "),
            Visibility::Public => push_str(&mut text, "pub "),
        }
        match self.kind {
            ItemKind::Use => push_str(&mut text, "use"),
            ItemKind::Mod => push_str(&mut text, "mod"),
            ItemKind::TestModule => push_str(&mut text, "mod tests"),
        }
        proof {
            assert(Seq::<char>::empty() + visibility_prefix(self.visibility)
                =~= visibility_prefix(self.visibility));
        }
        text
    }
}

/// The entries of a TOML document in which every value is an array of strings, as
/// `toml::from_str` yields them into a `BTreeMap<String, Vec<String>>` (sorted by key);
/// `None` where it rejects the document.
pub uninterp spec fn toml_string_lists(source: Seq<char>) -> Option<Seq<(Seq<char>, Seq<Seq<char>>)>>;

/// The view of a list of TOML entries.
pub open spec fn entries_view(entries: Seq<(String, Vec<String>)>) -> Seq<(Seq<char>, Seq<Seq<char>>)> {
    entries.map_values(|e: (String, Vec<String>)| (e.0@, strings_view(e.1@)))
}

pub open spec fn strings_view(strings: Seq<String>) -> Seq<Seq<char>> {
    strings.map_values(|s: String| s@)
}

#[verifier::external_type_specification]
#[verifier::external_body]
pub struct ExTomlDeError(toml::de::Error);

/// `toml::from_str` into a `BTreeMap<String, Vec<String>>`, whose entries it then lists in
/// the map's order. The result is named by `toml_string_lists`.
#[verifier::external_body]
fn parse_string_lists(source: &str) -> (result: Result<Vec<(String, Vec<String>)>, toml::de::Error>)
    ensures
        match result {
            Ok(entries) => toml_string_lists(source@) == Some(entries_view(entries@)),
            Err(_) => toml_string_lists(source@) is None,
        },
{
    toml::from_str::<std::collections::BTreeMap<String, Vec<String>>>(source).map(|table| table.into_iter().collect())
}

/// `toml::de::Error`'s `Display`: the error's message.
#[verifier::external_body]
fn toml_error_message(error: &toml::de::Error) -> String {
    error.to_string()
}

/// Why a configuration is refused.
#[derive(Debug)]
pub enum ConfigError {
    /// The text is not TOML whose only key is `order`, an array of strings. The message
    /// is `toml`'s where the text is not TOML whose values are arrays of strings, else
    /// the sentence that names the unknown or missing field.
    InvalidToml { message: String },
    EmptyOrder,
    UnsupportedClass { value: String },
    DuplicateClass { value: String },
}

/// The view of a configuration error.
pub enum ConfigErrorView {
    InvalidToml { message: Seq<char> },
    EmptyOrder,
    UnsupportedClass { value: Seq<char> },
    DuplicateClass { value: Seq<char> },
}

impl ConfigError {
    pub open spec fn view(&self) -> ConfigErrorView {
        match self {
            ConfigError::InvalidToml { message } => ConfigErrorView::InvalidToml { message: message@ },
            ConfigError::EmptyOrder => ConfigErrorView::EmptyOrder,
            ConfigError::UnsupportedClass { value } => ConfigErrorView::UnsupportedClass {
                value: value@,
            },
            ConfigError::DuplicateClass { value } => ConfigErrorView::DuplicateClass {
                value: value@,
            },
        }
    }

    /// The error as a sentence.
    pub fn message(&self) -> (message: String)
        ensures
            match self {
                ConfigError::InvalidToml { message: m } => message@ == "invalid TOML: "@ + m@,
                ConfigError::EmptyOrder => message@
                    == "`order` must contain at least one item class"@,
                ConfigError::UnsupportedClass { value } => message@ == "unsupported item class `"@
                    + value@
                    + "`; expected one of: use, pub(crate) use, pub use, mod, pub(crate) mod, pub mod"@,
                ConfigError::DuplicateClass { value } => message@ == "duplicate item class `"@
                    + value@ + "` in `order`"@,
            },
    {
        let mut message = String::new();
        match self {
            ConfigError::InvalidToml { message: m } => {
                push_str(&mut message, "invalid TOML: ");
                push_str(&mut message, m.as_str());
            },
            ConfigError::EmptyOrder => {
                push_str(&mut message, "`order` must contain at least one item class");
            },
            ConfigError::UnsupportedClass { value } => {
                push_str(&mut message, "unsupported item class `");
                push_str(&mut message, value.as_str());
                push_str(
                    &mut message,
                    "`; expected one of: use, pub(crate) use, pub use, mod, pub(crate) mod, pub mod",
                );
            },
            ConfigError::DuplicateClass { value } => {
                push_str(&mut message, "duplicate item class `");
                push_str(&mut message, value.as_str());
                push_str(&mut message, "` in `order`");
            },
        }
        proof {
            let e = Seq::<char>::empty();
            assert forall|a: Seq<char>| e + a =~= a by {}
        }
        message
    }
}

/// The order that the `order` list gives: the class it names at each position.
/// `None` where the list is refused, with the first error in list order.
pub open spec fn classes_of(values: Seq<Seq<char>>) -> Result<Seq<ItemClass>, ConfigErrorView>
    decreases values.len(),
{
    if values.len() == 0 {
        Ok(Seq::empty())
    } else {
        match classes_of(values.drop_last()) {
            Err(e) => Err(e),
            Ok(classes) => {
                let value = values.last();
                if exists|c: ItemClass| is_configurable(c) && class_text(c) == value {
                    let c = choose|c: ItemClass| is_configurable(c) && class_text(c) == value;
                    if classes.contains(c) {
                        Err(ConfigErrorView::DuplicateClass { value })
                    } else {
                        Ok(classes.push(c))
                    }
                } else {
                    Err(ConfigErrorView::UnsupportedClass { value })
                }
            },
        }
    }
}

/// How `serde` words a key other than `order`.
pub open spec fn unknown_field_message(name: Seq<char>) -> Seq<char> {
    "unknown field `"@ + name + "`, expected `order`"@
}

/// What a configuration with the given TOML entries yields: a key other than `order`,
/// or a missing `order`, makes it invalid TOML, as deserializing into a struct whose
/// only field is `order` and that denies unknown fields does.
pub open spec fn config_of_entries(entries: Seq<(Seq<char>, Seq<Seq<char>>)>) -> Result<
    Seq<ItemClass>,
    ConfigErrorView,
> {
    if exists|i: int| 0 <= i < entries.len() && entries[i].0 != "order"@ {
        let i = choose|i: int|
            0 <= i < entries.len() && entries[i].0 != "order"@ && forall|j: int|
                0 <= j < i ==> entries[j].0 == "order"@;
        Err(ConfigErrorView::InvalidToml { message: unknown_field_message(entries[i].0) })
    } else if entries.len() == 0 {
        Err(ConfigErrorView::InvalidToml { message: "missing field `order`"@ })
    } else if entries[0].1.len() == 0 {
        Err(ConfigErrorView::EmptyOrder)
    } else {
        classes_of(entries[0].1)
    }
}

/// The classes that a configuration orders, each at its rank.
pub struct Config {
    order: Vec<ItemClass>,
}

impl Config {
    pub closed spec fn order(&self) -> Seq<ItemClass> {
        self.order@
    }

    /// Each class occurs once.
    pub closed spec fn wf(&self) -> bool {
        forall|i: int, j: int|
            0 <= i < j < self.order@.len() ==> self.order@[i] != self.order@[j]
    }

    /// Parses a TOML configuration whose `order` lists item classes.
    pub fn parse(source: &str) -> (config: Result<Self, ConfigError>)
        ensures
            match toml_string_lists(source@) {
                None => config matches Err(ConfigError::InvalidToml { .. }),
                Some(entries) => match config {
                    Ok(c) => c.wf() && config_of_entries(entries) == Ok::<
                        Seq<ItemClass>,
                        ConfigErrorView,
                    >(c.order()),
                    Err(e) => config_of_entries(entries) == Err::<Seq<ItemClass>, ConfigErrorView>(
                        e.view(),
                    ),
                },
            },
    {
        match parse_string_lists(source) {
            Ok(entries) => Self::from_entries(entries),
            Err(error) => Err(ConfigError::InvalidToml { message: toml_error_message(&error) }),
        }
    }

    /// Builds a configuration from TOML entries whose values are string arrays.
    pub fn from_entries(entries: Vec<(String, Vec<String>)>) -> (config: Result<Self, ConfigError>)
        ensures
            match config {
                Ok(c) => c.wf() && config_of_entries(entries_view(entries@)) == Ok::<
                    Seq<ItemClass>,
                    ConfigErrorView,
                >(c.order()),
                Err(e) => config_of_entries(entries_view(entries@)) == Err::<
                    Seq<ItemClass>,
                    ConfigErrorView,
                >(e.view()),
            },
    {
        let ghost view = entries_view(entries@);
        let mut i: usize = 0;
        while i < entries.len()
            invariant
                view == entries_view(entries@),
                0 <= i <= entries@.len(),
                forall|j: int| 0 <= j < i ==> view[j].0 == "order"@,
            decreases entries@.len() - i,
        {
            if !str_eq(entries[i].0.as_str(), "order") {
                let ghost chosen = choose|k: int|
                    0 <= k < view.len() && view[k].0 != "order"@ && forall|j: int|
                        0 <= j < k ==> view[j].0 == "order"@;
                proof {
                    assert(view[i as int].0 != "order"@);
                    if chosen < i {
                    } else if chosen > i {
                        assert(view[i as int].0 == "order"@);
                    }
                }
                let mut message = String::new();
                push_str(&mut message, "unknown field `");
                push_str(&mut message, entries[i].0.as_str());
                push_str(&mut message, "`, expected `order`");
                proof {
                    assert(message@ =~= unknown_field_message(view[i as int].0));
                }
                return Err(ConfigError::InvalidToml { message });
            }
            i = i + 1;
        }
        if entries.len() == 0 {
            proof {
                reveal_strlit("missing field `order`");
            }
            return Err(ConfigError::InvalidToml { message: string_of("missing field `order`") });
        }
        let values = &entries[0].1;
        if values.len() == 0 {
            return Err(ConfigError::EmptyOrder);
        }
        Self::from_values(values)
    }

    /// Builds a configuration from the values of its `order` list.
    fn from_values(values: &Vec<String>) -> (config: Result<Self, ConfigError>)
        ensures
            match config {
                Ok(c) => c.wf() && classes_of(strings_view(values@)) == Ok::<
                    Seq<ItemClass>,
                    ConfigErrorView,
                >(c.order()),
                Err(e) => classes_of(strings_view(values@)) == Err::<Seq<ItemClass>, ConfigErrorView>(
                    e.view(),
                ),
            },
    {
        let ghost view = strings_view(values@);
        let mut order: Vec<ItemClass> = Vec::new();
        let mut i: usize = 0;
        while i < values.len()
            invariant
                view == strings_view(values@),
                0 <= i <= values@.len(),
                classes_of(view.take(i as int)) == Ok::<Seq<ItemClass>, ConfigErrorView>(order@),
                forall|a: int, b: int| 0 <= a < b < order@.len() ==> order@[a] != order@[b],
            decreases values@.len() - i,
        {
            assert(view.take(i + 1).drop_last() =~= view.take(i as int));
            assert(view.take(i + 1).last() == values@[i as int]@);
            let class = match ItemClass::parse(values[i].as_str()) {
                Some(class) => class,
                None => {
                    proof {
                        lemma_classes_of_prefix_err(view, i + 1);
                    }
                    return Err(ConfigError::UnsupportedClass { value: values[i].clone() });
                },
            };
            let ghost chosen = choose|c: ItemClass|
                is_configurable(c) && class_text(c) == values@[i as int]@;
            proof {
                lemma_class_text_injective(chosen, class);
            }
            if Self::position(&order, class).is_some() {
                proof {
                    lemma_classes_of_prefix_err(view, i + 1);
                }
                return Err(ConfigError::DuplicateClass { value: values[i].clone() });
            }
            order.push(class);
            i = i + 1;
        }
        assert(view.take(i as int) =~= view);
        Ok(Config { order })
    }

    /// The index at which `class` occurs in `order`.
    fn position(order: &Vec<ItemClass>, class: ItemClass) -> (index: Option<usize>)
        ensures
            match index {
                Some(k) => k < order@.len() && order@[k as int] == class && forall|j: int|
                    0 <= j < k ==> order@[j] != class,
                None => !order@.contains(class),
            },
    {
        let mut k: usize = 0;
        while k < order.len()
            invariant
                0 <= k <= order@.len(),
                forall|j: int| 0 <= j < k ==> order@[j] != class,
            decreases order@.len() - k,
        {
            if order[k] == class {
                return Some(k);
            }
            k = k + 1;
        }
        None
    }

    /// The rank that the configuration gives `class`: its position in `order`.
    pub fn rank(&self, class: ItemClass) -> (rank: Option<usize>)
        requires
            self.wf(),
        ensures
            match rank {
                Some(k) => k < self.order().len() && self.order()[k as int] == class,
                None => !self.order().contains(class),
            },
    {
        Self::position(&self.order, class)
    }
}

/// The length of each class's text and a character that tells apart classes of the
/// same length.
proof fn lemma_class_text_shape(c: ItemClass)
    ensures
        ({
            let t = class_text(c);
            match c.kind {
                ItemKind::Use => match c.visibility {
                    Visibility::Private => t.len() == 3 && t[0] == 'u',
                    Visibility::Crate => t.len() == 14 && t[11] == 'u',
                    Visibility::Public => t.len() == 7 && t[4] == 'u',
                },
                ItemKind::Mod => match c.visibility {
                    Visibility::Private => t.len() == 3 && t[0] == 'm',
                    Visibility::Crate => t.len() == 14 && t[11] == 'm',
                    Visibility::Public => t.len() == 7 && t[4] == 'm',
                },
                ItemKind::TestModule => match c.visibility {
                    Visibility::Private => t.len() == 22,
                    Visibility::Crate => t.len() == 33,
                    Visibility::Public => t.len() == 26,
                },
            }
        }),
{
    reveal_strlit("pub(crate) ");
    reveal_strlit("pub ");
    reveal_strlit("use");
    reveal_strlit("mod");
    reveal_strlit("#[cfg(test)] ");
    reveal_strlit("mod tests");
    let t = class_text(c);
    let p = visibility_prefix(c.visibility);
    match c.kind {
        ItemKind::Use => {
            assert(t == p + "use"@);
            assert(t[p.len() as int] == "use"@[0]);
        },
        ItemKind::Mod => {
            assert(t == p + "mod"@);
            assert(t[p.len() as int] == "mod"@[0]);
        },
        ItemKind::TestModule => {},
    }
}

/// Different classes are written differently.
pub proof fn lemma_class_text_injective(a: ItemClass, b: ItemClass)
    requires
        class_text(a) == class_text(b),
    ensures
        a == b,
{
    lemma_class_text_shape(a);
    lemma_class_text_shape(b);
}

/// Once a prefix of the `order` list is refused, so is the whole list.
proof fn lemma_classes_of_prefix_err(values: Seq<Seq<char>>, n: int)
    requires
        0 <= n <= values.len(),
        classes_of(values.take(n)) is Err,
    ensures
        classes_of(values) == classes_of(values.take(n)),
    decreases values.len() - n,
{
    if n < values.len() {
        assert(values.take(n + 1).drop_last() =~= values.take(n));
        lemma_classes_of_prefix_err(values, n + 1);
    } else {
        assert(values.take(n) =~= values);
    }
}

/// A class occurs at most once in a configuration, so its rank is its one position.
pub proof fn lemma_rank_is_position(config: Config, i: int)
    requires
        config.wf(),
        0 <= i < config.order().len(),
    ensures
        forall|k: int| 0 <= k < config.order().len() && config.order()[k] == config.order()[i] ==> k == i,
{
    assert forall|k: int| 0 <= k < config.order().len() && config.order()[k] == config.order()[i] implies k == i by {
        if k < i {
            assert(config.order@[k] != config.order@[i]);
        } else if k > i {
            assert(config.order@[i] != config.order@[k]);
        }
    }
}

/// A value of the `order` list names a class that a configuration can name.
pub open spec fn names_class(value: Seq<char>) -> bool {
    exists|c: ItemClass| is_configurable(c) && class_text(c) == value
}

/// Every value names a configurable class, and no value occurs twice.
pub open spec fn names_distinct_classes(values: Seq<Seq<char>>) -> bool {
    &&& forall|i: int| 0 <= i < values.len() ==> names_class(#[trigger] values[i])
    &&& forall|i: int, j: int| 0 <= i < j < values.len() ==> values[i] != values[j]
}

/// An `order` list is accepted exactly when each value names a configurable class and
/// no value occurs twice; the order it then gives holds, at each position, the class
/// that the value there names.
pub proof fn lemma_order_list_accepted(values: Seq<Seq<char>>)
    ensures
        classes_of(values) is Ok <==> names_distinct_classes(values),
        classes_of(values) matches Ok(classes) ==> classes.len() == values.len() && forall|i: int|
            0 <= i < values.len() ==> is_configurable(#[trigger] classes[i]) && class_text(classes[i])
                == values[i],
    decreases values.len(),
{
    if values.len() > 0 {
        let prefix = values.drop_last();
        let value = values.last();
        lemma_order_list_accepted(prefix);
        if names_distinct_classes(values) {
            assert(names_distinct_classes(prefix)) by {
                assert forall|i: int| 0 <= i < prefix.len() implies names_class(#[trigger] prefix[i]) by {
                    assert(prefix[i] == values[i]);
                }
                assert forall|i: int, j: int| 0 <= i < j < prefix.len() implies prefix[i] != prefix[j] by {
                    assert(prefix[i] == values[i] && prefix[j] == values[j]);
                }
            }
            let classes = classes_of(prefix)->Ok_0;
            assert(names_class(values[values.len() - 1]));
            let c = choose|c: ItemClass| is_configurable(c) && class_text(c) == value;
            assert(!classes.contains(c)) by {
                if classes.contains(c) {
                    let k = choose|k: int| 0 <= k < classes.len() && classes[k] == c;
                    assert(class_text(classes[k]) == prefix[k]);
                    assert(values[k] == values[values.len() - 1]);
                }
            }
            let all = classes.push(c);
            assert forall|i: int| 0 <= i < values.len() implies is_configurable(#[trigger] all[i])
                && class_text(all[i]) == values[i] by {
                if i < prefix.len() {
                    assert(all[i] == classes[i]);
                    assert(prefix[i] == values[i]);
                }
            }
        } else {
            if classes_of(prefix) is Ok {
                let classes = classes_of(prefix)->Ok_0;
                assert(names_distinct_classes(prefix));
                if names_class(value) {
                    let c = choose|c: ItemClass| is_configurable(c) && class_text(c) == value;
                    if !classes.contains(c) {
                        assert(names_distinct_classes(values)) by {
                            assert forall|i: int| 0 <= i < values.len() implies names_class(#[trigger] values[i]) by {
                                if i < prefix.len() {
                                    assert(prefix[i] == values[i]);
                                    assert(names_class(prefix[i]));
                                }
                            }
                            assert forall|i: int, j: int| 0 <= i < j < values.len() implies values[i] != values[j] by {
                                assert(prefix[i] == values[i]);
                                if j < prefix.len() {
                                    assert(prefix[j] == values[j]);
                                } else if values[i] == values[j] {
                                    assert(class_text(classes[i]) == prefix[i]);
                                    lemma_class_text_injective(classes[i], c);
                                    assert(classes.contains(c));
                                }
                            }
                        }
                    }
                }
            }
        }
    }
}

/// What a configuration's entries yield: it is accepted exactly when its only key is
/// `order` and that list is not empty, names configurable classes and none twice; the
/// configuration then holds, at each position, the class that the value there names.
pub proof fn lemma_config_accepted(entries: Seq<(Seq<char>, Seq<Seq<char>>)>)
    ensures
        config_of_entries(entries) is Ok <==> ((forall|i: int| 0 <= i < entries.len() ==> (#[trigger] entries[i]).0
            == "order"@) && entries.len() > 0 && entries[0].1.len() > 0 && names_distinct_classes(entries[0].1)),
        config_of_entries(entries) matches Ok(classes) ==> classes.len() == entries[0].1.len() && forall|i: int|
            0 <= i < classes.len() ==> is_configurable(#[trigger] classes[i]) && class_text(classes[i])
                == entries[0].1[i],
{
    if entries.len() > 0 {
        lemma_order_list_accepted(entries[0].1);
    }
    if exists|i: int| 0 <= i < entries.len() && entries[i].0 != "order"@ {
        let i = choose|i: int| 0 <= i < entries.len() && entries[i].0 != "order"@;
        assert(entries[i].0 != "order"@);
    }
}

/// In an accepted configuration, each class occurs at exactly one position, the one of
/// the `order` value that names it, and a class that no value names does not occur.
pub proof fn lemma_config_ranks(config: Config, values: Seq<Seq<char>>)
    requires
        config.wf(),
        classes_of(values) == Ok::<Seq<ItemClass>, ConfigErrorView>(config.order()),
    ensures
        forall|i: int, k: int|
            0 <= i < values.len() && 0 <= k < config.order().len() && class_text(#[trigger] config.order()[k])
                == #[trigger] values[i] ==> k == i,
        forall|c: ItemClass|
            is_configurable(c) && (forall|i: int| 0 <= i < values.len() ==> class_text(c) != #[trigger] values[i])
                ==> !config.order().contains(c),
{
    lemma_order_list_accepted(values);
    let order = config.order();
    assert forall|i: int, k: int|
        0 <= i < values.len() && 0 <= k < order.len() && class_text(#[trigger] order[k]) == #[trigger] values[i]
            implies k == i by {
        lemma_class_text_injective(order[k], order[i]);
        lemma_rank_is_position(config, i);
    }
    assert forall|c: ItemClass|
        is_configurable(c) && (forall|i: int| 0 <= i < values.len() ==> class_text(c) != #[trigger] values[i])
            implies !order.contains(c) by {
        if order.contains(c) {
            let k = choose|k: int| 0 <= k < order.len() && order[k] == c;
            assert(class_text(order[k]) == values[k]);
        }
    }
}

} // verus!
