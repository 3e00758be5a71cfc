//! The gates that can be added, by category.

use vstd::prelude::*;
use crate::text::same_text;

verus! {

/// A hint on the parameter of a gate.
#[derive(Clone, Copy, Debug)]
pub struct ParameterHint {
    pub required: bool,
    pub example: &'static str,
}

/// One gate of the menu.
#[derive(Clone, Copy, Debug)]
pub struct MenuItem {
    pub name: &'static str,
    pub gate_type: &'static str,
    pub symbol: &'static str,
    pub needs_target: bool,
    pub needs_params: bool,
    pub param_hint: Option<ParameterHint>,
}

/// A category of the menu.
#[derive(Debug)]
pub struct MenuCategory {
    pub name: &'static str,
    pub items: Vec<MenuItem>,
}

impl Clone for MenuCategory {
    fn clone(&self) -> (r: Self)
        ensures
            r.name == self.name,
            r.items@ == self.items@,
    {
        let mut items: Vec<MenuItem> = Vec::new();
        let mut i: usize = 0;
        while i < self.items.len()
            invariant
                i <= self.items.len(),
                items@ == self.items@.take(i as int),
            decreases self.items.len() - i,
        {
            items.push(self.items[i]);
            i += 1;
        }
        assert(self.items@.take(i as int) =~= self.items@);
        MenuCategory { name: self.name, items }
    }
}

/// Whether a gate of the given type takes parameters.
pub open spec fn takes_params(gate_type: Seq<char>) -> bool {
    ||| gate_type == "RX"@
    ||| gate_type == "RY"@
    ||| gate_type == "RZ"@
    ||| gate_type == "P"@
    ||| gate_type == "U1"@
    ||| gate_type == "U2"@
    ||| gate_type == "U3"@
    ||| gate_type == "CRX"@
    ||| gate_type == "CRY"@
    ||| gate_type == "CRZ"@
    ||| gate_type == "CU1"@
    ||| gate_type == "NOISE_DEPOL"@
    ||| gate_type == "NOISE_AMP"@
    ||| gate_type == "NOISE_PHASE"@
}

/// Whether a gate of the given type takes parameters.
pub fn is_parameterized_gate(gate_type: &str) -> (r: bool)
    ensures
        r == takes_params(gate_type@),
{
    same_text(gate_type, "RX") || same_text(gate_type, "RY") || same_text(gate_type, "RZ")
        || same_text(gate_type, "P") || same_text(gate_type, "U1") || same_text(gate_type, "U2")
        || same_text(gate_type, "U3") || same_text(gate_type, "CRX") || same_text(
        gate_type,
        "CRY",
    ) || same_text(gate_type, "CRZ") || same_text(gate_type, "CU1") || same_text(
        gate_type,
        "NOISE_DEPOL",
    ) || same_text(gate_type, "NOISE_AMP") || same_text(gate_type, "NOISE_PHASE")
}

/// The mathematical content of a [`MenuItem`].
pub ghost struct ItemView {
    pub name: Seq<char>,
    pub gate_type: Seq<char>,
    pub symbol: Seq<char>,
    pub needs_target: bool,
    pub needs_params: bool,
    pub param_hint: Option<(bool, Seq<char>)>,
}

impl View for MenuItem {
    type V = ItemView;

    open spec fn view(&self) -> ItemView {
        ItemView {
            name: self.name@,
            gate_type: self.gate_type@,
            symbol: self.symbol@,
            needs_target: self.needs_target,
            needs_params: self.needs_params,
            param_hint: match self.param_hint {
                Some(h) => Some((h.required, h.example@)),
                None => None,
            },
        }
    }
}

/// The mathematical content of a [`MenuCategory`].
pub ghost struct CategoryView {
    pub name: Seq<char>,
    pub items: Seq<ItemView>,
}

impl View for MenuCategory {
    type V = CategoryView;

    open spec fn view(&self) -> CategoryView {
        CategoryView { name: self.name@, items: self.items@.map_values(|i: MenuItem| i@) }
    }
}

/// The contents of a vector of categories.
pub open spec fn categories_of(v: Seq<MenuCategory>) -> Seq<CategoryView> {
    v.map_values(|c: MenuCategory| c@)
}

/// An entry for a gate that takes no parameter.
pub open spec fn plain_entry(
    name: Seq<char>,
    gate_type: Seq<char>,
    symbol: Seq<char>,
    needs_target: bool,
) -> ItemView {
    ItemView { name, gate_type, symbol, needs_target, needs_params: false, param_hint: None }
}

/// An entry for a gate that takes parameters.
pub open spec fn param_entry(
    name: Seq<char>,
    gate_type: Seq<char>,
    symbol: Seq<char>,
    needs_target: bool,
    required: bool,
    example: Seq<char>,
) -> ItemView {
    ItemView {
        name,
        gate_type,
        symbol,
        needs_target,
        needs_params: true,
        param_hint: Some((required, example)),
    }
}

/// The menu: six categories, each with its gates.
pub open spec fn menu_entries() -> Seq<CategoryView> {
    seq![
        CategoryView {
            name: "Single Qubit"@,
            items: seq![
                plain_entry("Hadamard"@, "H"@, "H"@, false),
                plain_entry("Pauli-X (NOT)"@, "X"@, "X"@, false),
                plain_entry("Pauli-Y"@, "Y"@, "Y"@, false),
                plain_entry("Pauli-Z"@, "Z"@, "Z"@, false),
                plain_entry("Identity"@, "I"@, "I"@, false),
                plain_entry("Phase (S)"@, "S"@, "S"@, false),
                plain_entry("Phase Dagger (S†)"@, "SDG"@, "S†"@, false),
                plain_entry("T Gate"@, "T"@, "T"@, false),
                plain_entry("T Dagger (T†)"@, "TDG"@, "T†"@, false),
                plain_entry("√X (SX)"@, "SX"@, "√X"@, false),
                plain_entry("√Y (SY)"@, "SY"@, "√Y"@, false),
            ],
        },
        CategoryView {
            name: "Rotation"@,
            items: seq![
                param_entry("Rotate X"@, "RX"@, "RX"@, false, true, "pi/2"@),
                param_entry("Rotate Y"@, "RY"@, "RY"@, false, true, "pi/2"@),
                param_entry("Rotate Z"@, "RZ"@, "RZ"@, false, true, "pi/2"@),
                param_entry("Phase Shift"@, "P"@, "P"@, false, true, "pi/4"@),
                param_entry("Universal U1"@, "U1"@, "U1"@, false, true, "lambda"@),
                param_entry("Universal U2"@, "U2"@, "U2"@, false, true, "phi,lambda"@),
                param_entry("Universal U3"@, "U3"@, "U3"@, false, true, "theta,phi,lambda"@),
            ],
        },
        CategoryView {
            name: "Multi Qubit"@,
            items: seq![
                plain_entry("CNOT"@, "CX"@, "●─⊕"@, true),
                plain_entry("Controlled-Z"@, "CZ"@, "●─●"@, true),
                plain_entry("Controlled-H"@, "CH"@, "●─H"@, true),
                plain_entry("SWAP"@, "SWAP"@, "×─×"@, true),
                plain_entry("Toffoli (CCX)"@, "CCX"@, "●─●─⊕"@, true),
                param_entry("C-Rotate X"@, "CRX"@, "●─RX"@, true, true, "pi/2"@),
                param_entry("C-Rotate Y"@, "CRY"@, "●─RY"@, true, true, "pi/2"@),
                param_entry("C-Rotate Z"@, "CRZ"@, "●─RZ"@, true, true, "pi/2"@),
                param_entry("C-Phase (CU1)"@, "CU1"@, "●─U1"@, true, true, "lambda"@),
            ],
        },
        CategoryView {
            name: "Measurement"@,
            items: seq![
                plain_entry("Measure"@, "MEASURE"@, "M"@, false),
                plain_entry("Measure-Ctrl X"@, "MCX"@, "M─⊕"@, true),
            ],
        },
        CategoryView {
            name: "Special"@,
            items: seq![
                plain_entry("Reset"@, "RESET"@, "|0⟩"@, false),
                plain_entry("Barrier"@, "BARRIER"@, "┃"@, false),
            ],
        },
        CategoryView {
            name: "Noise"@,
            items: seq![
                param_entry("Depolarizing"@, "NOISE_DEPOL"@, "N"@, false, false, "0.01"@),
                param_entry("Amplitude Damping"@, "NOISE_AMP"@, "N"@, false, false, "0.01"@),
                param_entry("Phase Damping"@, "NOISE_PHASE"@, "N"@, false, false, "0.01"@),
            ],
        },
    ]
}

/// A menu entry for a gate that takes no parameter.
pub fn plain_item(
    name: &'static str,
    gate_type: &'static str,
    symbol: &'static str,
    needs_target: bool,
) -> (r: MenuItem)
    ensures
        r@ == plain_entry(name@, gate_type@, symbol@, needs_target),
{
    MenuItem { name, gate_type, symbol, needs_target, needs_params: false, param_hint: None }
}

/// A menu entry for a gate that takes parameters.
pub fn param_item(
    name: &'static str,
    gate_type: &'static str,
    symbol: &'static str,
    needs_target: bool,
    required: bool,
    example: &'static str,
) -> (r: MenuItem)
    ensures
        r@ == param_entry(name@, gate_type@, symbol@, needs_target, required, example@),
{
    MenuItem {
        name,
        gate_type,
        symbol,
        needs_target,
        needs_params: true,
        param_hint: Some(ParameterHint { required, example }),
    }
}

/// The menu: six categories, each with its gates.
pub fn gate_menu() -> (r: Vec<MenuCategory>)
    ensures
        categories_of(r@) == menu_entries(),
{
    let mut single: Vec<MenuItem> = Vec::new();
    single.push(plain_item("Hadamard", "H", "H", false));
    single.push(plain_item("Pauli-X (NOT)", "X", "X", false));
    single.push(plain_item("Pauli-Y", "Y", "Y", false));
    single.push(plain_item("Pauli-Z", "Z", "Z", false));
    single.push(plain_item("Identity", "I", "I", false));
    single.push(plain_item("Phase (S)", "S", "S", false));
    single.push(plain_item("Phase Dagger (S†)", "SDG", "S†", false));
    single.push(plain_item("T Gate", "T", "T", false));
    single.push(plain_item("T Dagger (T†)", "TDG", "T†", false));
    single.push(plain_item("√X (SX)", "SX", "√X", false));
    single.push(plain_item("√Y (SY)", "SY", "√Y", false));
    let single_cat = MenuCategory { name: "Single Qubit", items: single };
    assert(single_cat@.items =~= menu_entries()[0].items);
    let mut rotation: Vec<MenuItem> = Vec::new();
    rotation.push(param_item("Rotate X", "RX", "RX", false, true, "pi/2"));
    rotation.push(param_item("Rotate Y", "RY", "RY", false, true, "pi/2"));
    rotation.push(param_item("Rotate Z", "RZ", "RZ", false, true, "pi/2"));
    rotation.push(param_item("Phase Shift", "P", "P", false, true, "pi/4"));
    rotation.push(param_item("Universal U1", "U1", "U1", false, true, "lambda"));
    rotation.push(param_item("Universal U2", "U2", "U2", false, true, "phi,lambda"));
    rotation.push(param_item("Universal U3", "U3", "U3", false, true, "theta,phi,lambda"));
    let rotation_cat = MenuCategory { name: "Rotation", items: rotation };
    assert(rotation_cat@.items =~= menu_entries()[1].items);
    let mut multi: Vec<MenuItem> = Vec::new();
    multi.push(plain_item("CNOT", "CX", "●─⊕", true));
    multi.push(plain_item("Controlled-Z", "CZ", "●─●", true));
    multi.push(plain_item("Controlled-H", "CH", "●─H", true));
    multi.push(plain_item("SWAP", "SWAP", "×─×", true));
    multi.push(plain_item("Toffoli (CCX)", "CCX", "●─●─⊕", true));
    multi.push(param_item("C-Rotate X", "CRX", "●─RX", true, true, "pi/2"));
    multi.push(param_item("C-Rotate Y", "CRY", "●─RY", true, true, "pi/2"));
    multi.push(param_item("C-Rotate Z", "CRZ", "●─RZ", true, true, "pi/2"));
    multi.push(param_item("C-Phase (CU1)", "CU1", "●─U1", true, true, "lambda"));
    let multi_cat = MenuCategory { name: "Multi Qubit", items: multi };
    assert(multi_cat@.items =~= menu_entries()[2].items);
    let mut measurement: Vec<MenuItem> = Vec::new();
    measurement.push(plain_item("Measure", "MEASURE", "M", false));
    measurement.push(plain_item("Measure-Ctrl X", "MCX", "M─⊕", true));
    let measurement_cat = MenuCategory { name: "Measurement", items: measurement };
    assert(measurement_cat@.items =~= menu_entries()[3].items);
    let mut special: Vec<MenuItem> = Vec::new();
    special.push(plain_item("Reset", "RESET", "|0⟩", false));
    special.push(plain_item("Barrier", "BARRIER", "┃", false));
    let special_cat = MenuCategory { name: "Special", items: special };
    assert(special_cat@.items =~= menu_entries()[4].items);
    let mut noise: Vec<MenuItem> = Vec::new();
    noise.push(param_item("Depolarizing", "NOISE_DEPOL", "N", false, false, "0.01"));
    noise.push(param_item("Amplitude Damping", "NOISE_AMP", "N", false, false, "0.01"));
    noise.push(param_item("Phase Damping", "NOISE_PHASE", "N", false, false, "0.01"));
    let noise_cat = MenuCategory { name: "Noise", items: noise };
    assert(noise_cat@.items =~= menu_entries()[5].items);
    let mut menu: Vec<MenuCategory> = Vec::new();
    menu.push(single_cat);
    menu.push(rotation_cat);
    menu.push(multi_cat);
    menu.push(measurement_cat);
    menu.push(special_cat);
    menu.push(noise_cat);
    assert(categories_of(menu@) =~= menu_entries());
    menu
}

} // verus!
