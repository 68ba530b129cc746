//! Grimoire: an addressed structural description language for machine
//! learning systems, with layered views, typed extension values, schema
//! documents, and static cost and placement analysis.
pub mod text;
pub mod map;
pub mod address;
pub mod namespace;
pub mod decimal;
pub mod version;
pub mod cost;
pub mod resource;
pub mod placement;
pub mod value;
pub mod schema;
pub mod schemas;
pub mod serialize;
pub mod cut;
pub mod events;
pub mod canonical;
pub mod model;
pub mod projection;
pub mod lexer;
pub mod reading;
pub mod documents;
pub mod parser;
pub mod layers;
pub mod validate;
pub mod definitions;
pub mod references;
pub mod checks;
pub mod extensions;
pub mod same;
pub mod evaluate;

pub use address::{Address, AddressError};
pub use cut::{extract_cut, CutError};
pub use events::{parse_events, read_event_records, EventRecords, EventsError, ScenarioInput};
pub use cost::{CostError, CostExpression, CostModel, CostReport};
pub use documents::{parse_schema_document, ParseError};
pub use evaluate::{evaluate_layer, CheckResult, Element, FinalizedReprojection, ProjectionError, StructuralReprojection};
pub use parser::{parse_description, parse_layer_document};
pub use map::OrderedMap;
pub use model::{Block, Connection, CoreGraph, Description, ExtensionParameter, ExtensionValue, Group, Port};
pub use namespace::{Namespace, NamespaceError};
pub use placement::{
    bytes_on_wire, BandwidthReport, Collective, CollectiveTransfer, Placement, PlacementError, ShapeDimension, TensorShape,
    WireTransfer,
};
pub use projection::{Check, Decoration, ExpectedCardinality, Layer, LayerFile, LayerInput, Projection, SchemaUse, SelectItem};
pub use resource::{validate_flow, ResourceBundle, ResourceCharge, ResourceError, ResourceFlow, ResourceKind};
pub use schema::{ElementKind, ElementKinds, Schema, SchemaError, SchemaExpr, SchemaExprArm, SchemaExprField};
pub use schemas::{prototype_schemas, PROTOTYPE_NAMESPACE_ROOT};
pub use canonical::{serialize_description, serialize_layer_document};
pub use serialize::{serialize_schema_document, SerializeError};
pub use value::{FiniteNumber, Value};
pub use validate::{validate_description, ValidationError};
pub use version::{Version, VersionError};
