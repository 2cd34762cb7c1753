//! Electrical rule checks on a netlist: pins that must stay unconnected, and current budgets.
use vstd::prelude::*;

use crate::duplicate::Duplicate;
use crate::netlist::fixed::fixed_below;
use crate::netlist::schematic::{
    attribute, attribute_physical, find_attribute, find_physical, Net, NetV, PhysicalV, PortV,
    Schematic, SchematicV,
};
use crate::order::{in_order, sorted};
use crate::steps::distinct;
use crate::text::{cat3, holds, is_empty_text, join, joined, same};

verus! {

/// A stretch of source text.
#[derive(Clone, Copy, Debug, PartialEq, Eq, Structural)]
pub struct Span {
    pub begin_line: usize,
    pub begin_column: usize,
    pub end_line: usize,
    pub end_column: usize,
}

impl DeepView for Span {
    type V = Span;

    open spec fn deep_view(&self) -> Span {
        *self
    }
}

impl Duplicate for Span {
    fn duplicate(&self) -> (r: Self) {
        *self
    }
}

/// The electrical types of a signal's pins, and whether all of them say "no connect".
pub struct PinTypes {
    pub signal: String,
    pub types: Vec<String>,
    pub only_no_connect: bool,
}

/// The value of a `PinTypes`.
#[verifier::ext_equal]
pub struct PinTypesV {
    pub signal: Seq<char>,
    pub types: Seq<Seq<char>>,
    pub only_no_connect: bool,
}

impl DeepView for PinTypes {
    type V = PinTypesV;

    open spec fn deep_view(&self) -> PinTypesV {
        PinTypesV {
            signal: self.signal@,
            types: self.types.deep_view(),
            only_no_connect: self.only_no_connect,
        }
    }
}

impl Duplicate for PinTypes {
    fn duplicate(&self) -> (r: Self) {
        PinTypes {
            signal: self.signal.clone(),
            types: self.types.duplicate(),
            only_no_connect: self.only_no_connect,
        }
    }
}

/// The symbol of a component: which signal each pad carries, and the types of the signals' pins.
pub struct Symbol {
    pub pad_to_signal: Vec<(String, String)>,
    pub pin_types: Vec<PinTypes>,
}

/// The value of a `Symbol`.
#[verifier::ext_equal]
pub struct SymbolV {
    pub pad_to_signal: Seq<(Seq<char>, Seq<char>)>,
    pub pin_types: Seq<PinTypesV>,
}

impl DeepView for Symbol {
    type V = SymbolV;

    open spec fn deep_view(&self) -> SymbolV {
        SymbolV {
            pad_to_signal: self.pad_to_signal.deep_view(),
            pin_types: self.pin_types.deep_view(),
        }
    }
}

/// What the source text says of a net.
pub struct NetMetadata {
    pub display_name: String,
    pub path: String,
    pub span: Option<Span>,
}

/// The value of a `NetMetadata`.
#[verifier::ext_equal]
pub struct NetMetadataV {
    pub display_name: Seq<char>,
    pub path: Seq<char>,
    pub span: Option<Span>,
}

impl DeepView for NetMetadata {
    type V = NetMetadataV;

    open spec fn deep_view(&self) -> NetMetadataV {
        NetMetadataV { display_name: self.display_name@, path: self.path@, span: self.span }
    }
}

impl Duplicate for NetMetadata {
    fn duplicate(&self) -> (r: Self) {
        NetMetadata {
            display_name: self.display_name.clone(),
            path: self.path.clone(),
            span: self.span,
        }
    }
}

/// A component of the design: the path of its module, its name, its symbol, the nets that it is
/// connected to.
pub struct Component {
    pub modules: Vec<String>,
    pub name: String,
    pub symbol: Option<Symbol>,
    pub nets: Vec<(u64, NetMetadata)>,
}

/// The value of a `Component`.
#[verifier::ext_equal]
pub struct ComponentV {
    pub modules: Seq<Seq<char>>,
    pub name: Seq<char>,
    pub symbol: Option<SymbolV>,
    pub nets: Seq<(u64, NetMetadataV)>,
}

impl DeepView for Component {
    type V = ComponentV;

    open spec fn deep_view(&self) -> ComponentV {
        ComponentV {
            modules: self.modules.deep_view(),
            name: self.name@,
            symbol: self.symbol.deep_view(),
            nets: self.nets.deep_view(),
        }
    }
}

/// The dotted path of a component.
pub open spec fn dotted(modules: Seq<Seq<char>>, name: Seq<char>) -> Seq<char> {
    if modules.len() == 0 {
        name
    } else {
        joined(modules, "."@) + "."@ + name
    }
}

/// The dotted path of a component; a component of the root module is just its name.
pub fn component_path(modules: &Vec<String>, component_name: &str) -> (r: String)
    ensures
        r@ == dotted(modules.deep_view(), component_name@),
{
    if modules.len() == 0 {
        component_name.to_string()
    } else {
        cat3(join(modules, ".").as_str(), ".", component_name)
    }
}

/// The signals that the pads carry.
pub open spec fn pad_signals(pads: Seq<(Seq<char>, Seq<char>)>) -> Seq<Seq<char>> {
    Seq::new(pads.len(), |i: int| pads[i].1)
}

/// The signals of a symbol, each once, in order.
pub fn signal_names(symbol: &Symbol) -> (r: Vec<String>)
    ensures
        r.deep_view() == sorted::<String>(
            distinct(pad_signals(symbol.deep_view().pad_to_signal)),
        ),
{
    let ghost sv = pad_signals(symbol.deep_view().pad_to_signal);
    let n: usize = symbol.pad_to_signal.len();
    let mut out: Vec<String> = Vec::new();
    let mut i: usize = 0;
    assert(out.deep_view() =~= distinct(sv.take(0)));
    while i < n
        invariant
            n == symbol.pad_to_signal@.len(),
            i <= n,
            sv == pad_signals(symbol.deep_view().pad_to_signal),
            out.deep_view() == distinct(sv.take(i as int)),
        decreases n - i,
    {
        let ghost before = out.deep_view();
        assert(sv.take(i + 1).drop_last() =~= sv.take(i as int));
        assert(sv[i as int] == symbol.pad_to_signal@[i as int].1@);
        if !holds(&out, symbol.pad_to_signal[i].1.as_str()) {
            out.push(symbol.pad_to_signal[i].1.clone());
            assert(out.deep_view() =~= before.push(sv[i as int]));
        }
        i += 1;
    }
    assert(sv.take(n as int) =~= sv);
    in_order(&out)
}

/// The pin types of the given signal.
pub open spec fn types_of(list: Seq<PinTypesV>, signal: Seq<char>) -> Option<PinTypesV>
    decreases list.len(),
{
    if list.len() == 0 {
        None
    } else if list[0].signal == signal {
        Some(list[0])
    } else {
        types_of(list.drop_first(), signal)
    }
}

fn find_types<'a>(list: &'a Vec<PinTypes>, signal: &str) -> (r: Option<&'a PinTypes>)
    ensures
        match r {
            Some(t) => types_of(list.deep_view(), signal@) == Some(t.deep_view()),
            None => types_of(list.deep_view(), signal@) is None,
        },
{
    let ghost all = list.deep_view();
    let n: usize = list.len();
    let mut i: usize = 0;
    assert(all.skip(0) =~= all);
    while i < n
        invariant
            n == list@.len(),
            all == list.deep_view(),
            i <= n,
            types_of(all, signal@) == types_of(all.skip(i as int), signal@),
        decreases n - i,
    {
        assert(all.skip(i as int).drop_first() =~= all.skip(i + 1));
        assert(all.skip(i as int)[0] == list@[i as int].deep_view());
        if same(list[i].signal.as_str(), signal) {
            return Some(&list[i]);
        }
        i += 1;
    }
    None
}

/// The typed pins of a component: for each signal with pin types, under the component's path.
pub open spec fn typed_signals(
    path: Seq<char>,
    symbol: SymbolV,
    signals: Seq<Seq<char>>,
) -> Seq<(Seq<char>, PinTypesV)>
    decreases signals.len(),
{
    if signals.len() == 0 {
        Seq::empty()
    } else {
        let front = typed_signals(path, symbol, signals.drop_last());
        match types_of(symbol.pin_types, signals.last()) {
            Some(t) => if t.types.len() > 0 {
                front.push((path, t))
            } else {
                front
            },
            None => front,
        }
    }
}

/// The typed pins that one component adds.
pub open spec fn typed_pins_of(c: ComponentV) -> Seq<(Seq<char>, PinTypesV)> {
    match c.symbol {
        Some(s) => typed_signals(
            dotted(c.modules, c.name),
            s,
            sorted::<String>(distinct(pad_signals(s.pad_to_signal))),
        ),
        None => Seq::empty(),
    }
}

/// The typed pins of the components.
pub open spec fn typed_pins(components: Seq<ComponentV>) -> Seq<(Seq<char>, PinTypesV)>
    decreases components.len(),
{
    if components.len() == 0 {
        Seq::empty()
    } else {
        typed_pins(components.drop_last()) + typed_pins_of(components.last())
    }
}

/// The pin types that were recorded last for a component's signal.
pub open spec fn recorded(
    pins: Seq<(Seq<char>, PinTypesV)>,
    path: Seq<char>,
    signal: Seq<char>,
) -> Option<PinTypesV>
    decreases pins.len(),
{
    if pins.len() == 0 {
        None
    } else if pins.last().0 == path && pins.last().1.signal == signal {
        Some(pins.last().1)
    } else {
        recorded(pins.drop_last(), path, signal)
    }
}

/// The nets that the components are connected to.
pub open spec fn known_nets(components: Seq<ComponentV>) -> Seq<(u64, NetMetadataV)>
    decreases components.len(),
{
    if components.len() == 0 {
        Seq::empty()
    } else {
        known_nets(components.drop_last()) + components.last().nets
    }
}

/// What was recorded first of a net.
pub open spec fn metadata_of(nets: Seq<(u64, NetMetadataV)>, id: u64) -> Option<NetMetadataV>
    decreases nets.len(),
{
    if nets.len() == 0 {
        None
    } else if nets[0].0 == id {
        Some(nets[0].1)
    } else {
        metadata_of(nets.drop_first(), id)
    }
}

/// A component pin on a net.
pub struct NetPinAttachment {
    pub component_name: String,
    pub signal_name: String,
    pub pin_types: PinTypes,
}

/// The value of a `NetPinAttachment`.
#[verifier::ext_equal]
pub struct NetPinAttachmentV {
    pub component_name: Seq<char>,
    pub signal_name: Seq<char>,
    pub pin_types: PinTypesV,
}

impl DeepView for NetPinAttachment {
    type V = NetPinAttachmentV;

    open spec fn deep_view(&self) -> NetPinAttachmentV {
        NetPinAttachmentV {
            component_name: self.component_name@,
            signal_name: self.signal_name@,
            pin_types: self.pin_types.deep_view(),
        }
    }
}

/// What the checks know of a net beside the netlist.
pub struct ErcNet {
    pub metadata: Option<NetMetadata>,
    pub pin_attachments: Vec<NetPinAttachment>,
}

/// The value of an `ErcNet`.
#[verifier::ext_equal]
pub struct ErcNetV {
    pub metadata: Option<NetMetadataV>,
    pub pin_attachments: Seq<NetPinAttachmentV>,
}

impl DeepView for ErcNet {
    type V = ErcNetV;

    open spec fn deep_view(&self) -> ErcNetV {
        ErcNetV {
            metadata: self.metadata.deep_view(),
            pin_attachments: self.pin_attachments.deep_view(),
        }
    }
}

/// What a port attaches to a net: the component pin that it is, where its types are recorded.
pub open spec fn attachment_of(pins: Seq<(Seq<char>, PinTypesV)>, port: PortV) -> Option<
    NetPinAttachmentV,
> {
    match port.pin {
        Some((at, signal)) => match recorded(pins, joined(at.path, "."@), signal) {
            Some(t) => Some(
                NetPinAttachmentV {
                    component_name: if at.path.len() > 0 {
                        at.path.last()
                    } else {
                        "<component>"@
                    },
                    signal_name: signal,
                    pin_types: t,
                },
            ),
            None => None,
        },
        None => None,
    }
}

/// What the ports attach to a net.
pub open spec fn attachments(pins: Seq<(Seq<char>, PinTypesV)>, ports: Seq<PortV>) -> Seq<
    NetPinAttachmentV,
>
    decreases ports.len(),
{
    if ports.len() == 0 {
        Seq::empty()
    } else {
        match attachment_of(pins, ports.last()) {
            Some(a) => attachments(pins, ports.drop_last()).push(a),
            None => attachments(pins, ports.drop_last()),
        }
    }
}

/// What the checks know of a net.
pub open spec fn erc_net(components: Seq<ComponentV>, net: NetV) -> ErcNetV {
    ErcNetV {
        metadata: metadata_of(known_nets(components), net.id),
        pin_attachments: attachments(typed_pins(components), net.ports),
    }
}

/// What the checks know of the nets.
pub open spec fn erc_nets(components: Seq<ComponentV>, nets: Seq<NetV>) -> Seq<ErcNetV> {
    Seq::new(nets.len(), |i: int| erc_net(components, nets[i]))
}

/// What the checks know of the nets, in the order of the netlist.
pub struct SchematicErcContext {
    pub nets: Vec<ErcNet>,
}

fn record_component(c: &Component, pins: &mut Vec<(String, PinTypes)>)
    ensures
        final(pins).deep_view() == old(pins).deep_view() + typed_pins_of(c.deep_view()),
{
    let ghost base = pins.deep_view();
    let path = component_path(&c.modules, c.name.as_str());
    match &c.symbol {
        Some(symbol) => {
            let ghost sv = symbol.deep_view();
            assert(c.deep_view().symbol == Some(sv));
            let names = signal_names(symbol);
            let ghost nv = names.deep_view();
            let n: usize = names.len();
            let mut i: usize = 0;
            assert(pins.deep_view() =~= base + typed_signals(path@, sv, nv.take(0)));
            while i < n
                invariant
                    n == names@.len(),
                    i <= n,
                    nv == names.deep_view(),
                    sv == symbol.deep_view(),
                    pins.deep_view() == base + typed_signals(path@, sv, nv.take(i as int)),
                decreases n - i,
            {
                let ghost before = pins.deep_view();
                assert(nv.take(i + 1).drop_last() =~= nv.take(i as int));
                assert(nv[i as int] == names@[i as int]@);
                match find_types(&symbol.pin_types, names[i].as_str()) {
                    Some(t) => {
                        if t.types.len() > 0 {
                            pins.push((path.clone(), t.duplicate()));
                            assert(pins.deep_view() =~= before.push((path@, t.deep_view())));
                        }
                    },
                    None => {},
                }
                assert(pins.deep_view() =~= base + typed_signals(path@, sv, nv.take(i + 1)));
                i += 1;
            }
            assert(nv.take(n as int) =~= nv);
        },
        None => {
            assert(pins.deep_view() =~= base + typed_pins_of(c.deep_view()));
        },
    }
}

fn record_nets(c: &Component, nets: &mut Vec<(u64, NetMetadata)>)
    ensures
        final(nets).deep_view() == old(nets).deep_view() + c.deep_view().nets,
{
    let ghost base = nets.deep_view();
    let ghost cv = c.deep_view().nets;
    let n: usize = c.nets.len();
    let mut i: usize = 0;
    assert(base + cv.take(0) =~= base);
    while i < n
        invariant
            n == c.nets@.len(),
            i <= n,
            cv == c.deep_view().nets,
            nets.deep_view() == base + cv.take(i as int),
        decreases n - i,
    {
        let ghost before = nets.deep_view();
        nets.push((c.nets[i].0, c.nets[i].1.duplicate()));
        assert(nets.deep_view() =~= before.push(cv[i as int]));
        assert(nets.deep_view() =~= base + cv.take(i + 1));
        i += 1;
    }
    assert(cv.take(n as int) =~= cv);
}

fn find_recorded<'a>(pins: &'a Vec<(String, PinTypes)>, path: &str, signal: &str) -> (r: Option<
    &'a PinTypes,
>)
    ensures
        match r {
            Some(t) => recorded(pins.deep_view(), path@, signal@) == Some(t.deep_view()),
            None => recorded(pins.deep_view(), path@, signal@) is None,
        },
{
    let ghost all = pins.deep_view();
    let mut i: usize = pins.len();
    assert(all.take(i as int) =~= all);
    while i > 0
        invariant
            i <= pins@.len(),
            all == pins.deep_view(),
            recorded(all, path@, signal@) == recorded(all.take(i as int), path@, signal@),
        decreases i,
    {
        i -= 1;
        assert(all.take(i + 1).drop_last() =~= all.take(i as int));
        assert(all.take(i + 1).last() == (pins@[i as int].0@, pins@[i as int].1.deep_view()));
        if same(pins[i].0.as_str(), path) && same(pins[i].1.signal.as_str(), signal) {
            return Some(&pins[i].1);
        }
    }
    None
}

fn find_metadata(nets: &Vec<(u64, NetMetadata)>, id: u64) -> (r: Option<NetMetadata>)
    ensures
        r.deep_view() == metadata_of(nets.deep_view(), id),
{
    let ghost all = nets.deep_view();
    let n: usize = nets.len();
    let mut i: usize = 0;
    assert(all.skip(0) =~= all);
    while i < n
        invariant
            n == nets@.len(),
            all == nets.deep_view(),
            i <= n,
            metadata_of(all, id) == metadata_of(all.skip(i as int), id),
        decreases n - i,
    {
        assert(all.skip(i as int).drop_first() =~= all.skip(i + 1));
        assert(all.skip(i as int)[0] == (nets@[i as int].0, nets@[i as int].1.deep_view()));
        if nets[i].0 == id {
            return Some(nets[i].1.duplicate());
        }
        i += 1;
    }
    None
}

fn attach(pins: &Vec<(String, PinTypes)>, net: &Net) -> (r: Vec<NetPinAttachment>)
    ensures
        r.deep_view() == attachments(pins.deep_view(), net.deep_view().ports),
{
    let ghost pv = pins.deep_view();
    let ghost ports = net.deep_view().ports;
    let n: usize = net.ports.len();
    let mut out: Vec<NetPinAttachment> = Vec::new();
    let mut i: usize = 0;
    assert(out.deep_view() =~= attachments(pv, ports.take(0)));
    while i < n
        invariant
            n == net.ports@.len(),
            i <= n,
            pv == pins.deep_view(),
            ports == net.deep_view().ports,
            out.deep_view() == attachments(pv, ports.take(i as int)),
        decreases n - i,
    {
        let ghost before = out.deep_view();
        assert(ports.take(i + 1).drop_last() =~= ports.take(i as int));
        assert(ports[i as int] == net.ports@[i as int].deep_view());
        match &net.ports[i].pin {
            Some(pin) => {
                assert(ports[i as int].pin == Some((pin.0.deep_view(), pin.1@)));
                let path = join(&pin.0.path, ".");
                match find_recorded(pins, path.as_str(), pin.1.as_str()) {
                    Some(t) => {
                        let m: usize = pin.0.path.len();
                        let name = if m > 0 {
                            assert(pin.0.path.deep_view().last() == pin.0.path@[m - 1]@);
                            pin.0.path[m - 1].clone()
                        } else {
                            "<component>".to_string()
                        };
                        out.push(
                            NetPinAttachment {
                                component_name: name,
                                signal_name: pin.1.clone(),
                                pin_types: t.duplicate(),
                            },
                        );
                        assert(out.deep_view() =~= before.push(
                            attachment_of(pv, ports[i as int]).unwrap(),
                        ));
                    },
                    None => {},
                }
            },
            None => {},
        }
        i += 1;
    }
    assert(ports.take(n as int) =~= ports);
    out
}

impl SchematicErcContext {
    /// Gathers what the checks need to know of each net.
    pub fn build(components: &Vec<Component>, schematic: &Schematic) -> (r: SchematicErcContext)
        ensures
            r.nets.deep_view() == erc_nets(components.deep_view(), schematic.deep_view().nets),
    {
        let ghost cv = components.deep_view();
        let mut pins: Vec<(String, PinTypes)> = Vec::new();
        let mut known: Vec<(u64, NetMetadata)> = Vec::new();
        let m: usize = components.len();
        let mut c: usize = 0;
        assert(pins.deep_view() =~= typed_pins(cv.take(0)));
        assert(known.deep_view() =~= known_nets(cv.take(0)));
        while c < m
            invariant
                m == components@.len(),
                c <= m,
                cv == components.deep_view(),
                pins.deep_view() == typed_pins(cv.take(c as int)),
                known.deep_view() == known_nets(cv.take(c as int)),
            decreases m - c,
        {
            assert(cv.take(c + 1).drop_last() =~= cv.take(c as int));
            assert(cv[c as int] == components@[c as int].deep_view());
            record_component(&components[c], &mut pins);
            record_nets(&components[c], &mut known);
            c += 1;
        }
        assert(cv.take(m as int) =~= cv);
        let mut nets: Vec<ErcNet> = Vec::new();
        let n: usize = schematic.nets.len();
        let mut i: usize = 0;
        while i < n
            invariant
                n == schematic.nets@.len(),
                i <= n,
                pins.deep_view() == typed_pins(cv),
                known.deep_view() == known_nets(cv),
                nets@.len() == i,
                forall|j: int|
                    0 <= j < i ==> (#[trigger] nets@[j]).deep_view() == erc_net(
                        cv,
                        schematic.deep_view().nets[j],
                    ),
            decreases n - i,
        {
            assert(schematic.deep_view().nets[i as int] == schematic.nets@[i as int].deep_view());
            let metadata = find_metadata(&known, schematic.nets[i].id);
            let pin_attachments = attach(&pins, &schematic.nets[i]);
            nets.push(ErcNet { metadata, pin_attachments });
            i += 1;
        }
        assert(nets.deep_view() =~= erc_nets(cv, schematic.deep_view().nets));
        SchematicErcContext { nets }
    }
}

/// How grave a finding is.
#[derive(Clone, Copy, Debug, PartialEq, Eq, Structural)]
pub enum Severity {
    Error,
    Warning,
}

/// What a finding says.
pub enum Body {
    Text(String),
    /// A pin that must stay unconnected is on a net: component, signal, kind and name of the net.
    PinNoConnect(String, String, String, String),
}

/// The value of a `Body`.
pub enum BodyV {
    Text(Seq<char>),
    PinNoConnect(Seq<char>, Seq<char>, Seq<char>, Seq<char>),
}

impl DeepView for Body {
    type V = BodyV;

    open spec fn deep_view(&self) -> BodyV {
        match self {
            Body::Text(s) => BodyV::Text(s@),
            Body::PinNoConnect(a, b, c, d) => BodyV::PinNoConnect(a@, b@, c@, d@),
        }
    }
}

/// A finding of a check.
pub struct Diagnostic {
    pub path: String,
    pub body: Body,
    pub category: String,
    pub severity: Severity,
    pub span: Option<Span>,
}

/// The value of a `Diagnostic`.
pub struct DiagnosticV {
    pub path: Seq<char>,
    pub body: BodyV,
    pub category: Seq<char>,
    pub severity: Severity,
    pub span: Option<Span>,
}

impl DeepView for Diagnostic {
    type V = DiagnosticV;

    open spec fn deep_view(&self) -> DiagnosticV {
        DiagnosticV {
            path: self.path@,
            body: self.body.deep_view(),
            category: self.category@,
            severity: self.severity,
            span: self.span,
        }
    }
}

/// Where findings on the net point to.
pub open spec fn net_path(e: ErcNetV) -> Seq<char> {
    match e.metadata {
        Some(m) => m.path,
        None => Seq::empty(),
    }
}

/// The stretch of source text that findings on the net point to.
pub open spec fn net_span(e: ErcNetV) -> Option<Span> {
    match e.metadata {
        Some(m) => m.span,
        None => None,
    }
}

/// The name under which findings speak of the net.
pub open spec fn shown_name(e: ErcNetV, net: NetV) -> Seq<char> {
    match e.metadata {
        Some(m) => if m.display_name.len() > 0 {
            m.display_name
        } else {
            net.name
        },
        None => net.name,
    }
}

/// The declared name of the net, empty or not.
pub open spec fn declared_name(e: ErcNetV, net: NetV) -> Seq<char> {
    match e.metadata {
        Some(m) => m.display_name,
        None => net.name,
    }
}

/// A finding on a net.
pub open spec fn finding(e: ErcNetV, body: BodyV, category: Seq<char>, severity: Severity) -> DiagnosticV {
    DiagnosticV { path: net_path(e), body, category, severity, span: net_span(e) }
}

impl ErcNet {
    fn diagnostic_path(&self) -> (r: String)
        ensures
            r@ == net_path(self.deep_view()),
    {
        match &self.metadata {
            Some(m) => m.path.clone(),
            None => {
                let s = String::new();
                assert(s@ =~= Seq::empty());
                s
            },
        }
    }

    fn diagnostic_span(&self) -> (r: Option<Span>)
        ensures
            r == net_span(self.deep_view()),
    {
        match &self.metadata {
            Some(m) => m.span,
            None => None,
        }
    }

    fn display_name(&self, net: &Net) -> (r: String)
        ensures
            r@ == shown_name(self.deep_view(), net.deep_view()),
    {
        match &self.metadata {
            Some(m) => if is_empty_text(m.display_name.as_str()) {
                net.name.clone()
            } else {
                m.display_name.clone()
            },
            None => net.name.clone(),
        }
    }

    fn report(&self, body: Body, category: &str, severity: Severity) -> (r: Diagnostic)
        ensures
            r.deep_view() == finding(self.deep_view(), body.deep_view(), category@, severity),
    {
        Diagnostic {
            path: self.diagnostic_path(),
            body,
            category: category.to_string(),
            severity,
            span: self.diagnostic_span(),
        }
    }
}

/// The findings on the pins of a net that must stay unconnected.
pub open spec fn no_connect_findings(
    e: ErcNetV,
    net: NetV,
    list: Seq<NetPinAttachmentV>,
) -> Seq<DiagnosticV>
    decreases list.len(),
{
    if list.len() == 0 {
        Seq::empty()
    } else if list.last().pin_types.only_no_connect {
        no_connect_findings(e, net, list.drop_last()).push(
            finding(
                e,
                BodyV::PinNoConnect(
                    list.last().component_name,
                    list.last().signal_name,
                    net.kind,
                    declared_name(e, net),
                ),
                "pin.no_connect"@,
                Severity::Warning,
            ),
        )
    } else {
        no_connect_findings(e, net, list.drop_last())
    }
}

/// The findings on pins that must stay unconnected, net by net.
pub open spec fn no_connect_report(known: Seq<ErcNetV>, nets: Seq<NetV>) -> Seq<DiagnosticV>
    decreases nets.len(),
{
    if nets.len() == 0 {
        Seq::empty()
    } else {
        let net = nets.last();
        let e = known[nets.len() - 1];
        no_connect_report(known, nets.drop_last()) + if net.kind == "NotConnected"@ {
            Seq::empty()
        } else {
            no_connect_findings(e, net, e.pin_attachments)
        }
    }
}

/// The net declares a current.
pub open spec fn declares_current(net: NetV) -> bool {
    find_attribute(net.properties, "current_sink_total"@) is Some || find_attribute(
        net.properties,
        "current_source_total"@,
    ) is Some
}

/// Some net declares a current.
pub open spec fn any_declares(nets: Seq<NetV>) -> bool {
    exists|i: int| 0 <= i < nets.len() && declares_current(#[trigger] nets[i])
}

/// The current of the net was inferred from the passive parts around it.
pub open spec fn current_inferred(net: NetV) -> bool {
    find_attribute(net.properties, "current_sink_static"@) is Some && find_attribute(
        net.properties,
        "current_source_static"@,
    ) is Some
}

/// The sources of the net cannot cover its sinks.
pub open spec fn budget_text(e: ErcNetV, net: NetV, sink: PhysicalV, source: PhysicalV) -> Seq<char> {
    "Net '"@ + shown_name(e, net) + "' current budget exceeded: declared sources supply "@
        + source.text + " but sinks draw "@ + sink.text
}

/// The net has no current.
pub open spec fn undeclared_text(e: ErcNetV, net: NetV) -> Seq<char> {
    "Net '"@ + shown_name(e, net)
        + "' has no declared or inferable current: no connected io() declares sink_current or source_current"@
}

/// The declared signal classes of the net disagree.
pub open spec fn conflict_text(e: ErcNetV, net: NetV, classes: Seq<Seq<char>>) -> Seq<char> {
    "Net '"@ + shown_name(e, net) + "' has conflicting io() signal declarations: "@ + joined(
        classes,
        ", "@,
    )
}

/// The texts of a list.
pub open spec fn texts_of(list: Seq<Option<Seq<char>>>) -> Seq<Seq<char>>
    decreases list.len(),
{
    if list.len() == 0 {
        Seq::empty()
    } else {
        match list.last() {
            Some(s) => texts_of(list.drop_last()).push(s),
            None => texts_of(list.drop_last()),
        }
    }
}

/// The finding on the current budget of a net, if there is one: an error where the declared
/// sources supply less than the declared sinks draw; a warning where the design declares
/// currents and the net has neither a declared nor an inferred one.
pub open spec fn budget_finding(e: ErcNetV, net: NetV, any_declared: bool) -> Seq<DiagnosticV> {
    match (
        find_physical(net.properties, "current_sink_total"@),
        find_physical(net.properties, "current_source_total"@),
    ) {
        (Some(sink), Some(source)) => if fixed_below(source.nominal, sink.nominal) {
            seq![
                finding(
                    e,
                    BodyV::Text(budget_text(e, net, sink, source)),
                    "erc.current_budget"@,
                    Severity::Error,
                ),
            ]
        } else {
            Seq::empty()
        },
        (None, None) => if any_declared && !current_inferred(net) {
            seq![
                finding(
                    e,
                    BodyV::Text(undeclared_text(e, net)),
                    "erc.current_budget.undeclared"@,
                    Severity::Warning,
                ),
            ]
        } else {
            Seq::empty()
        },
        _ => Seq::empty(),
    }
}

/// The finding on the signal classes of a net, if there is one.
pub open spec fn conflict_finding(e: ErcNetV, net: NetV) -> Seq<DiagnosticV> {
    match find_attribute(net.properties, "signal_conflict"@) {
        Some(a) => match a.list {
            Some(list) => seq![
                finding(
                    e,
                    BodyV::Text(conflict_text(e, net, texts_of(list))),
                    "erc.signal_conflict"@,
                    Severity::Warning,
                ),
            ],
            None => Seq::empty(),
        },
        None => Seq::empty(),
    }
}

/// The net has no current budget: it is unconnected or the ground.
pub open spec fn outside_budget(net: NetV) -> bool {
    net.kind == "NotConnected"@ || net.kind == "Ground"@
}

/// The findings on current budgets and signal classes, net by net.
pub open spec fn budget_report(
    known: Seq<ErcNetV>,
    nets: Seq<NetV>,
    any_declared: bool,
) -> Seq<DiagnosticV>
    decreases nets.len(),
{
    if nets.len() == 0 {
        Seq::empty()
    } else {
        let net = nets.last();
        let e = known[nets.len() - 1];
        budget_report(known, nets.drop_last(), any_declared) + if outside_budget(net) {
            Seq::empty()
        } else {
            budget_finding(e, net, any_declared) + conflict_finding(e, net)
        }
    }
}

/// All findings: first those on pins, then those on budgets.
pub open spec fn erc_report(components: Seq<ComponentV>, schematic: SchematicV) -> Seq<
    DiagnosticV,
> {
    no_connect_report(erc_nets(components, schematic.nets), schematic.nets) + budget_report(
        erc_nets(components, schematic.nets),
        schematic.nets,
        any_declares(schematic.nets),
    )
}

/// The check on pins that must stay unconnected.
pub struct PinNoConnectPass;

impl PinNoConnectPass {
    /// Adds a warning for each pin that must stay unconnected and is on a net.
    pub fn run(
        &self,
        ctx: &SchematicErcContext,
        schematic: &Schematic,
        diagnostics: &mut Vec<Diagnostic>,
    )
        requires
            ctx.nets@.len() == schematic.nets@.len(),
        ensures
            final(diagnostics).deep_view() == old(diagnostics).deep_view() + no_connect_report(
                ctx.nets.deep_view(),
                schematic.deep_view().nets,
            ),
    {
        let ghost base = diagnostics.deep_view();
        let ghost cv = ctx.nets.deep_view();
        let ghost nv = schematic.deep_view().nets;
        let n: usize = schematic.nets.len();
        let mut i: usize = 0;
        assert(base + no_connect_report(cv, nv.take(0)) =~= base);
        while i < n
            invariant
                n == schematic.nets@.len(),
                n == ctx.nets@.len(),
                i <= n,
                nv == schematic.deep_view().nets,
                cv == ctx.nets.deep_view(),
                diagnostics.deep_view() == base + no_connect_report(cv, nv.take(i as int)),
            decreases n - i,
        {
            let ghost before = diagnostics.deep_view();
            assert(nv.take(i + 1).drop_last() =~= nv.take(i as int));
            assert(nv[i as int] == schematic.nets@[i as int].deep_view());
            let net = &schematic.nets[i];
            let e = &ctx.nets[i];
            let ghost ev = e.deep_view();
            assert(ev == cv[i as int]);
            if !same(net.kind.as_str(), "NotConnected") {
                let ghost av = ev.pin_attachments;
                let m: usize = e.pin_attachments.len();
                let mut k: usize = 0;
                assert(before + no_connect_findings(ev, nv[i as int], av.take(0)) =~= before);
                while k < m
                    invariant
                        m == e.pin_attachments@.len(),
                        k <= m,
                        ev == e.deep_view(),
                        av == ev.pin_attachments,
                        i < n,
                        n == schematic.nets@.len(),
                        net.deep_view() == nv[i as int],
                        diagnostics.deep_view() == before + no_connect_findings(
                            ev,
                            nv[i as int],
                            av.take(k as int),
                        ),
                    decreases m - k,
                {
                    let ghost now = diagnostics.deep_view();
                    assert(av.take(k + 1).drop_last() =~= av.take(k as int));
                    assert(av[k as int] == e.pin_attachments@[k as int].deep_view());
                    let a = &e.pin_attachments[k];
                    if a.pin_types.only_no_connect {
                        let name = match &e.metadata {
                            Some(data) => data.display_name.clone(),
                            None => net.name.clone(),
                        };
                        let d = e.report(
                            Body::PinNoConnect(
                                a.component_name.clone(),
                                a.signal_name.clone(),
                                net.kind.clone(),
                                name,
                            ),
                            "pin.no_connect",
                            Severity::Warning,
                        );
                        let ghost dv = d.deep_view();
                        diagnostics.push(d);
                        assert(diagnostics.deep_view() =~= now.push(dv));
                        assert(diagnostics.deep_view() =~= before + no_connect_findings(
                            ev,
                            nv[i as int],
                            av.take(k + 1),
                        ));
                    }
                    k += 1;
                }
                assert(av.take(m as int) =~= av);
            }
            assert(diagnostics.deep_view() =~= base + no_connect_report(cv, nv.take(i + 1)));
            i += 1;
        }
        assert(nv.take(n as int) =~= nv);
    }
}

fn list_texts(list: &Vec<Option<String>>) -> (r: Vec<String>)
    ensures
        r.deep_view() == texts_of(list.deep_view()),
{
    let ghost lv = list.deep_view();
    let n: usize = list.len();
    let mut out: Vec<String> = Vec::new();
    let mut i: usize = 0;
    assert(out.deep_view() =~= texts_of(lv.take(0)));
    while i < n
        invariant
            n == list@.len(),
            i <= n,
            lv == list.deep_view(),
            out.deep_view() == texts_of(lv.take(i as int)),
        decreases n - i,
    {
        let ghost before = out.deep_view();
        assert(lv.take(i + 1).drop_last() =~= lv.take(i as int));
        assert(lv[i as int] == list@[i as int].deep_view());
        match &list[i] {
            Some(s) => {
                out.push(s.clone());
                assert(out.deep_view() =~= before.push(s@));
            },
            None => {},
        }
        i += 1;
    }
    assert(lv.take(n as int) =~= lv);
    out
}

fn check_budget(e: &ErcNet, net: &Net, any_declared: bool, diagnostics: &mut Vec<Diagnostic>)
    ensures
        final(diagnostics).deep_view() == old(diagnostics).deep_view() + budget_finding(
            e.deep_view(),
            net.deep_view(),
            any_declared,
        ),
{
    let ghost before = diagnostics.deep_view();
    let ghost nv = net.deep_view();
    let ghost want = before + budget_finding(e.deep_view(), nv, any_declared);
    let sink_total = attribute_physical(&net.properties, "current_sink_total");
    let source_total = attribute_physical(&net.properties, "current_source_total");
    match (sink_total, source_total) {
        (Some(sink), Some(source)) => {
            if source.nominal.less(&sink.nominal) {
                let name = e.display_name(net);
                let head = cat3(
                    "Net '",
                    name.as_str(),
                    "' current budget exceeded: declared sources supply ",
                );
                let body = head.concat(source.text.as_str()).concat(" but sinks draw ").concat(
                    sink.text.as_str(),
                );
                let d = e.report(Body::Text(body), "erc.current_budget", Severity::Error);
                let ghost dv = d.deep_view();
                diagnostics.push(d);
                assert(diagnostics.deep_view() =~= before.push(dv));
            }
        },
        (None, None) => {
            let sink_static: bool = attribute(&net.properties, "current_sink_static").is_some();
            let source_static: bool = attribute(
                &net.properties,
                "current_source_static",
            ).is_some();
            if any_declared && !(sink_static && source_static) {
                let name = e.display_name(net);
                let body = cat3(
                    "Net '",
                    name.as_str(),
                    "' has no declared or inferable current: no connected io() declares sink_current or source_current",
                );
                let d = e.report(
                    Body::Text(body),
                    "erc.current_budget.undeclared",
                    Severity::Warning,
                );
                let ghost dv = d.deep_view();
                diagnostics.push(d);
                assert(diagnostics.deep_view() =~= before.push(dv));
            }
        },
        _ => {},
    }
    assert(diagnostics.deep_view() =~= want);
}

fn check_conflict(e: &ErcNet, net: &Net, diagnostics: &mut Vec<Diagnostic>)
    ensures
        final(diagnostics).deep_view() == old(diagnostics).deep_view() + conflict_finding(
            e.deep_view(),
            net.deep_view(),
        ),
{
    let ghost before = diagnostics.deep_view();
    let ghost want = before + conflict_finding(e.deep_view(), net.deep_view());
    match attribute(&net.properties, "signal_conflict") {
        Some(a) => match &a.list {
            Some(list) => {
                let classes = list_texts(list);
                let name = e.display_name(net);
                let body = cat3(
                    "Net '",
                    name.as_str(),
                    "' has conflicting io() signal declarations: ",
                ).concat(join(&classes, ", ").as_str());
                let d = e.report(Body::Text(body), "erc.signal_conflict", Severity::Warning);
                let ghost dv = d.deep_view();
                diagnostics.push(d);
                assert(diagnostics.deep_view() =~= before.push(dv));
            },
            None => {},
        },
        None => {},
    }
    assert(diagnostics.deep_view() =~= want);
}

fn declared_anywhere(schematic: &Schematic) -> (r: bool)
    ensures
        r == any_declares(schematic.deep_view().nets),
{
    let ghost nv = schematic.deep_view().nets;
    let n: usize = schematic.nets.len();
    let mut i: usize = 0;
    while i < n
        invariant
            n == schematic.nets@.len(),
            i <= n,
            nv == schematic.deep_view().nets,
            forall|j: int| 0 <= j < i ==> !declares_current(#[trigger] nv[j]),
        decreases n - i,
    {
        assert(nv[i as int] == schematic.nets@[i as int].deep_view());
        let sink: bool = attribute(&schematic.nets[i].properties, "current_sink_total").is_some();
        let source: bool = attribute(
            &schematic.nets[i].properties,
            "current_source_total",
        ).is_some();
        if sink || source {
            assert(declares_current(nv[i as int]));
            return true;
        }
        i += 1;
    }
    false
}

/// The check on declared currents and signal classes:
/// an error where the declared sources of a net cannot cover its declared sinks; a warning on
/// nets with no declared or inferable current, once the design declares currents anywhere; a
/// warning where the signal declarations on one net disagree.
pub struct CurrentBudgetPass;

impl CurrentBudgetPass {
    /// Adds the findings on current budgets and signal classes.
    pub fn run(
        &self,
        ctx: &SchematicErcContext,
        schematic: &Schematic,
        diagnostics: &mut Vec<Diagnostic>,
    )
        requires
            ctx.nets@.len() == schematic.nets@.len(),
        ensures
            final(diagnostics).deep_view() == old(diagnostics).deep_view() + budget_report(
                ctx.nets.deep_view(),
                schematic.deep_view().nets,
                any_declares(schematic.deep_view().nets),
            ),
    {
        let ghost base = diagnostics.deep_view();
        let ghost cv = ctx.nets.deep_view();
        let ghost nv = schematic.deep_view().nets;
        let any_declared: bool = declared_anywhere(schematic);
        let n: usize = schematic.nets.len();
        let mut i: usize = 0;
        assert(base + budget_report(cv, nv.take(0), any_declared) =~= base);
        while i < n
            invariant
                n == schematic.nets@.len(),
                n == ctx.nets@.len(),
                i <= n,
                nv == schematic.deep_view().nets,
                cv == ctx.nets.deep_view(),
                diagnostics.deep_view() == base + budget_report(
                    cv,
                    nv.take(i as int),
                    any_declared,
                ),
            decreases n - i,
        {
            assert(nv.take(i + 1).drop_last() =~= nv.take(i as int));
            assert(nv[i as int] == schematic.nets@[i as int].deep_view());
            let net = &schematic.nets[i];
            let e = &ctx.nets[i];
            assert(e.deep_view() == cv[i as int]);
            let idle: bool = same(net.kind.as_str(), "NotConnected");
            let ground: bool = same(net.kind.as_str(), "Ground");
            if !idle && !ground {
                check_budget(e, net, any_declared, diagnostics);
                check_conflict(e, net, diagnostics);
            }
            assert(diagnostics.deep_view() =~= base + budget_report(
                cv,
                nv.take(i + 1),
                any_declared,
            ));
            i += 1;
        }
        assert(nv.take(n as int) =~= nv);
    }
}

/// Runs the electrical rule checks on a netlist.
pub fn run_schematic_erc(components: &Vec<Component>, schematic: &Schematic) -> (r: Vec<
    Diagnostic,
>)
    ensures
        r.deep_view() == erc_report(components.deep_view(), schematic.deep_view()),
{
    let ctx = SchematicErcContext::build(components, schematic);
    let ghost cv = components.deep_view();
    let mut diagnostics: Vec<Diagnostic> = Vec::new();
    assert(diagnostics.deep_view() =~= Seq::empty());
    assert(ctx.nets.deep_view().len() == ctx.nets@.len());
    PinNoConnectPass.run(&ctx, schematic, &mut diagnostics);
    CurrentBudgetPass.run(&ctx, schematic, &mut diagnostics);
    assert(diagnostics.deep_view() =~= erc_report(cv, schematic.deep_view()));
    diagnostics
}

/// A design that declares no current gets no finding on undeclared currents.
pub proof fn silent_without_declarations(known: Seq<ErcNetV>, nets: Seq<NetV>, d: DiagnosticV)
    requires
        budget_report(known, nets, false).contains(d),
    ensures
        d.category != "erc.current_budget.undeclared"@,
    decreases nets.len(),
{
    reveal_strlit("erc.current_budget.undeclared");
    reveal_strlit("erc.current_budget");
    reveal_strlit("erc.signal_conflict");
    assert("erc.current_budget.undeclared"@.len() == 29);
    assert("erc.current_budget"@.len() == 18);
    assert("erc.signal_conflict"@.len() == 19);
    if nets.len() > 0 {
        let front = budget_report(known, nets.drop_last(), false);
        let all = budget_report(known, nets, false);
        let k = choose|k: int| 0 <= k < all.len() && all[k] == d;
        if k < front.len() {
            assert(front[k] == d);
            silent_without_declarations(known, nets.drop_last(), d);
        }
    }
}

/// A net whose declared sources cover its declared sinks, exactly or with room, is within
/// budget; one whose sources fall short is an error.
pub proof fn budget_is_judged_by_totals(
    e: ErcNetV,
    net: NetV,
    sink: PhysicalV,
    source: PhysicalV,
    any_declared: bool,
)
    requires
        find_physical(net.properties, "current_sink_total"@) == Some(sink),
        find_physical(net.properties, "current_source_total"@) == Some(source),
    ensures
        fixed_below(source.nominal, sink.nominal) == (budget_finding(e, net, any_declared).len()
            > 0),
        fixed_below(source.nominal, sink.nominal) ==> budget_finding(
            e,
            net,
            any_declared,
        )[0].severity == Severity::Error,
{
}

} // verus!
