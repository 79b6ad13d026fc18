//! The shape of a graph, as the planner and the runner read it.
//!
//! A `.loom` file holds more than this — positions, sizes, settings — and
//! none of it changes what runs when. What is here is what the plan reads:
//! which blocks there are, what kind each is, which ports it declares of its
//! own, and where the wires go.
use vstd::prelude::*;

verus! {

/// The type on a port: six that flow, three that do not, and
/// `any` for a port that takes whatever it is given.
#[derive(PartialEq, Eq, Structural, Clone, Copy, Debug)]
pub enum PortType {
    Text,
    Data,
    File,
    Image,
    Audio,
    Stream,
    Tools,
    Memory,
    Exec,
    Any,
}

impl PortType {
    /// Whether the holder of this port makes the calls. `exec`
    /// is closed too, but it is control flow, not something to call.
    pub open spec fn spec_is_handle(&self) -> bool {
        let t = *self;
        t == PortType::Tools || t == PortType::Memory
    }

    #[verifier::when_used_as_spec(spec_is_handle)]
    pub fn is_handle(&self) -> (h: bool)
        ensures
            h == self.spec_is_handle(),
    {
        match self {
            PortType::Tools | PortType::Memory => true,
            _ => false,
        }
    }
}

#[derive(PartialEq, Eq, Structural, Clone, Copy, Debug)]
pub enum Side {
    In,
    Out,
}

/// A port a block declares: its name, which way it faces, and its type.
pub struct Port {
    pub name: String,
    pub side: Side,
    pub port_type: PortType,
}

/// One end of a wire: a block and one of its ports.
pub struct Endpoint {
    pub node: String,
    pub port: String,
}

impl Endpoint {
    pub fn new(node: &str, port: &str) -> (e: Endpoint)
        ensures
            e.node@ == node@,
            e.port@ == port@,
    {
        Endpoint { node: node.to_owned(), port: port.to_owned() }
    }

    pub fn copy(&self) -> (e: Endpoint)
        ensures
            e.node@ == self.node@,
            e.port@ == self.port@,
    {
        Endpoint { node: self.node.clone(), port: self.port.clone() }
    }

    /// Whether two endpoints name the same port of the same block.
    pub fn same(&self, other: &Endpoint) -> (r: bool)
        ensures
            r == same_end(*self, *other),
    {
        self.node == other.node && self.port == other.port
    }
}

pub open spec fn same_end(a: Endpoint, b: Endpoint) -> bool {
    a.node@ == b.node@ && a.port@ == b.port@
}

pub struct Wire {
    pub id: String,
    pub from: Endpoint,
    pub to: Endpoint,
}

/// A block, as far as planning is concerned.
pub struct Block {
    pub id: String,
    /// The catalogue kind: `llm`, `terminal`, `toolbox`, `custom`.
    pub kind: String,
    /// Ports the block declares itself. A custom block's ports come from its
    /// signature rather than the catalogue, and these win over the kind's.
    pub ports: Vec<Port>,
}

pub struct Graph {
    pub id: String,
    pub blocks: Vec<Block>,
    pub wires: Vec<Wire>,
    /// How many loop frames the graph draws.
    pub frames: usize,
}

/// What the catalogue says about one kind of block.
pub struct Kind {
    pub id: String,
    /// Emits on its own initiative.
    pub source: bool,
    pub ports: Vec<Port>,
}

/// The kinds this engine knows.
pub struct Catalogue {
    pub kinds: Vec<Kind>,
}

/// The index of the block an id names. When two blocks share an id the later
/// one is the one found, as a map built from the file in order would have it.
pub open spec fn block_named(blocks: Seq<Block>, id: Seq<char>) -> Option<int>
    decreases blocks.len(),
{
    if blocks.len() == 0 {
        None
    } else if blocks.last().id@ == id {
        Some(blocks.len() - 1)
    } else {
        block_named(blocks.drop_last(), id)
    }
}

/// The type of the first port with this name facing this way.
pub open spec fn port_named(ports: Seq<Port>, name: Seq<char>, side: Side) -> Option<PortType>
    decreases ports.len(),
{
    if ports.len() == 0 {
        None
    } else if ports[0].name@ == name && ports[0].side == side {
        Some(ports[0].port_type)
    } else {
        port_named(ports.drop_first(), name, side)
    }
}

/// The index of the first kind with this id.
pub open spec fn kind_named(kinds: Seq<Kind>, id: Seq<char>) -> Option<int>
    decreases kinds.len(),
{
    if kinds.len() == 0 {
        None
    } else if kinds[0].id@ == id {
        Some(0)
    } else {
        match kind_named(kinds.drop_first(), id) {
            Some(i) => Some(i + 1),
            None => None,
        }
    }
}

/// The declared type of one end of a wire: the block's own port if it
/// declares one, else the catalogue's, else none — a port the block does not
/// have, which validation reports and the plan steps over.
pub open spec fn port_type_of(g: Graph, cat: Catalogue, end: Endpoint, side: Side) -> Option<PortType> {
    match block_named(g.blocks@, end.node@) {
        None => None,
        Some(b) => match port_named(g.blocks@[b].ports@, end.port@, side) {
            Some(t) => Some(t),
            None => match kind_named(cat.kinds@, g.blocks@[b].kind@) {
                None => None,
                Some(k) => port_named(cat.kinds@[k].ports@, end.port@, side),
            },
        },
    }
}

/// Whether the wire's producing end is a handle.
pub open spec fn handle_wire(g: Graph, cat: Catalogue, w: Wire) -> bool {
    match port_type_of(g, cat, w.from, Side::Out) {
        Some(t) => t.spec_is_handle(),
        None => false,
    }
}

pub fn block_index(blocks: &Vec<Block>, id: &String) -> (r: Option<usize>)
    ensures
        r matches Some(i) ==> block_named(blocks@, id@) == Some(i as int) && i < blocks@.len(),
        r is None ==> block_named(blocks@, id@) is None,
{
    let mut i = blocks.len();
    proof { assert(blocks@.take(i as int) =~= blocks@); }
    while i > 0
        invariant
            i <= blocks.len(),
            block_named(blocks@, id@) == block_named(blocks@.take(i as int), id@),
        decreases i,
    {
        proof {
            assert(blocks@.take(i as int).drop_last() =~= blocks@.take(i - 1));
        }
        if blocks[i - 1].id == *id {
            return Some(i - 1);
        }
        i = i - 1;
    }
    None
}

fn port_lookup(ports: &Vec<Port>, name: &String, side: Side) -> (r: Option<PortType>)
    ensures
        r == port_named(ports@, name@, side),
{
    let mut i: usize = 0;
    proof { assert(ports@.skip(0) =~= ports@); }
    while i < ports.len()
        invariant
            i <= ports.len(),
            port_named(ports@, name@, side) == port_named(ports@.skip(i as int), name@, side),
        decreases ports.len() - i,
    {
        proof {
            assert(ports@.skip(i as int).drop_first() =~= ports@.skip(i + 1));
        }
        if ports[i].name == *name && ports[i].side == side {
            return Some(ports[i].port_type);
        }
        i = i + 1;
    }
    None
}

pub fn kind_index(kinds: &Vec<Kind>, id: &String) -> (r: Option<usize>)
    ensures
        r matches Some(i) ==> kind_named(kinds@, id@) == Some(i as int) && i < kinds@.len(),
        r is None ==> kind_named(kinds@, id@) is None,
{
    let mut i: usize = 0;
    while i < kinds.len()
        invariant
            i <= kinds.len(),
            forall|j: int| 0 <= j < i ==> kinds@[j].id@ != id@,
        decreases kinds.len() - i,
    {
        if kinds[i].id == *id {
            proof { lemma_kind_named_first(kinds@, id@, i as int); }
            return Some(i);
        }
        i = i + 1;
    }
    proof { lemma_kind_named_none(kinds@, id@); }
    None
}

proof fn lemma_kind_named_first(kinds: Seq<Kind>, id: Seq<char>, i: int)
    requires
        0 <= i < kinds.len(),
        kinds[i].id@ == id,
        forall|j: int| 0 <= j < i ==> kinds[j].id@ != id,
    ensures
        kind_named(kinds, id) == Some(i),
    decreases i,
{
    if i > 0 {
        lemma_kind_named_first(kinds.drop_first(), id, i - 1);
    }
}

proof fn lemma_kind_named_none(kinds: Seq<Kind>, id: Seq<char>)
    requires
        forall|j: int| 0 <= j < kinds.len() ==> kinds[j].id@ != id,
    ensures
        kind_named(kinds, id) is None,
    decreases kinds.len(),
{
    if kinds.len() > 0 {
        lemma_kind_named_none(kinds.drop_first(), id);
    }
}

/// The declared type of one end of a wire.
pub fn port_type(g: &Graph, cat: &Catalogue, end: &Endpoint, side: Side) -> (r: Option<PortType>)
    ensures
        r == port_type_of(*g, *cat, *end, side),
{
    match block_index(&g.blocks, &end.node) {
        None => None,
        Some(b) => match port_lookup(&g.blocks[b].ports, &end.port, side) {
            Some(t) => Some(t),
            None => match kind_index(&cat.kinds, &g.blocks[b].kind) {
                None => None,
                Some(k) => port_lookup(&cat.kinds[k].ports, &end.port, side),
            },
        },
    }
}

} // verus!
