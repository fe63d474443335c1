//! Everything that a request, a source or a file can be refused for.
use vstd::prelude::*;

verus! {

#[derive(Clone, Copy, Debug, PartialEq, Eq, Structural)]
pub enum Error {
    Cancelled,
    ScheduleBound,
    ScheduleOrder,
    ScheduleRange,
    ScheduleCost,
    GroupShape,
    GroupBound,
    GroupMember,
    GroupRestoreRegion,
    GroupRestoreOutputOverflow,
    GroupRestoreDestination,
    GroupEncoding,
    NativeRowShape,
    UnsupportedScalar,
    UnsupportedCodec,
    PredictorShape,
    PredictorLength,
    GridShape,
    LayoutOverflow,
    LayoutNode,
    GroupBand,
    UnsupportedPayloadLayout,
    UnsupportedPredictor,
    ChunkEdge,
    BandGroup,
    CodecOrLevel,
    CompilerMemory,
    OutputLimit,
    SkvVersion,
    SkvChunkShape,
    SkvBandCount,
    SkvSourceMetadata,
    SkvScaling,
    SkvBandInterpretation,
    SkvHierarchy,
    SkvLeafBound,
    SkvDigest,
    SkvProvenance,
    SkvDirectoryBound,
    SkvNotLeader,
    SkvUngrouped,
    NotSkv,
    BootstrapChecksum,
    BootstrapFields,
    MetadataBound,
    MetadataBootstrap,
    BootstrapPadding,
    HeaderDisagreement,
    DirectoryPage,
    DirectoryChecksum,
    DirectoryOccupancy,
    RecordIndex,
    RecordFeatures,
    RecordKind,
    RecordGroup,
    RecordGroupFields,
    RecordShape,
    RecordRawLength,
    RecordParent,
    RecordSummary,
    RecordSummaryMissing,
    PayloadChecksum,
    PayloadAlias,
    PayloadOrder,
    PayloadOverlap,
    PayloadBudget,
    PayloadMissing,
    PayloadGap,
    PayloadTrailing,
    ReadBudget,
    PayloadRange,
    SourceChunk,
    EncodedChunk,
    OutputOverflow,
    OutputBytes,
    BuildBuffer,
    WorkingBudget,
    DirectoryOutput,
    NoChildren,
    DecodedBlockBound,
    UncompressedLength,
    InvalidCompressed,
    DecompressionOverflow,
    DecompressionMismatch,
    ExpectedBits,
    RemoteHandles,
    RemoteBusy,
    RemoteFailed,
    RemoteReadSize,
    RemoteReadBound,
    RemoteOffset,
    SourceLocationBudget,
    SourceLocation,
    SourceOverview,
    SourceTransport,
    SourceLongitude,
    SourceLimits,
    SourceBands,
    SourceIdentity,
    SourceCrs,
    SourceWindowOverflow,
    WindowEdge,
    WindowPolicyBudget,
    WindowBand,
    WindowBlock,
    WindowTile,
    TypedWindow,
    TypedBands,
    TypedSize,
    TypedBuffer,
    TypedBudget,
    TypedLength,
    TypedScaling,
    ReturnedBounds,
    ReturnedAlignment,
    ReturnedIdentity,
    ReturnedUnit,
    ExpectedMetadata,
    ExpectedScalar,
    ExpectedScaling,
    ExpectedInterpretation,
    ProfileIdentity,
    ProfileDigest,
    ProfilePin,
    ProfileSelector,
    ProfileView,
    ProfileInterpretation,
    ProfileClasses,
    ProfileBands,
    ProfileBounds,
    ProfileWork,
    ProfileSchema,
    ProfileAttestation,
    ProfileChecks,
    ProfileViews,
    RequestSize,
    RequestRuns,
    RequestSelection,
    RequestSelected,
    RequestPlanning,
    RequestIndexes,
    RequestChoice,
    RequestWindowOverflow,
    RequestWindow,
    RequestWindows,
    RequestWindowCount,
    RequestPolygon,
    RequestCount,
    RequestBands,
    RequestNodata,
    RequestContribution,
    RequestContributions,
    ProfileReservation,
    ProfileMemory,
    WindowBytes,
    WindowResources,
    WindowOutside,
    NoScalars,
    WindowBands,
    WindowSize,
    WindowCapacity,
    WindowWorking,
    NoBandGroup,
    RawShape,
    RawPayload,
    AuditDirectory,
    AuditLogical,
    AuditRecompute,
    AuditSummary,
    AuditBudget,
    SkvSelectors,
    SkvIdentity,
    SkvEtag,
    SkvManifest,
    SkvCrs,
    SkvMapping,
    SkvRetained,
    SkvInvalidated,
    SkvWindow,
    SkvBands,
    SkvWindowSize,
    SkvReadBands,
    SkvBandRange,
    SkvReadBound,
    SkvValueSize,
    SkvValueBuffer,
    SkvPlan,
    SkvPrefetch,
    DecoderBudget,
    DecoderReentrant,
    DecoderContext,
    PrecisionWorkOverflow,
    PrecisionWork,
    PrecisionMemory,
    ExactCoverage,
    ExactFraction,
    CoveragePrecision,
    ExactArea,
    InvalidCentralState,
    MomentBudget,
    NonfiniteDeviation,
    DeviationRange,
    NonfiniteVariance,
    VarianceRange,
    InvalidMomentInput,
    CategoryCoverage,
    CategorySupport,
    NonfiniteCategory,
    CategoryDomain,
    CategoryValue,
    CategoryFraction,
    ReducerContribution,
    QuantileBudget,
    QuantileOverflow,
    QuantileMergeBudget,
    QuantileRank,
    ReducerConfiguration,
    ReducerMemory,
    PersistentVersion,
    PersistentIdentityVersion,
    PersistentAlgorithm,
    PersistentBands,
    PersistentTiles,
    PersistentIdentity,
    PersistentLayout,
    PersistentLength,
    TruncatedPage,
    PageChecksum,
    PersistentHeaderBudget,
    PersistentHeader,
    PersistentHeaderBound,
    PersistentHeaderPadding,
    SummaryRecord,
    SummaryState,
    EmptySummary,
    SummaryMean,
    RawPageValue,
    CountOverflow,
    SummaryBackend,
    BuildTileEdge,
    PreparedLayout,
    BuildOutput,
    BuilderMemoryOverflow,
    BuilderMemory,
    BuildLength,
    ReadMemory,
    ForbiddenTiles,
    SummaryPageBytes,
    RawPairMismatch,
    BuildMismatch,
    StaleIndex,
    MissingBoundaryReader,
    UnusedBoundaryReader,
    SourceMismatch,
    PortableMismatch,
    JointOriginal,
    JointStatistics,
    JointFlat,
    AccumulatorOverflow,
    BufferOverflow,
    ReaderOverflow,
    QueryMemory,
    TruncatedIndex,
    HierarchyIndex,
    PredicateWork,
    BoundaryWork,
    ForbiddenRead,
    QueryIo,
    BoundaryIo,
    ReadBounds,
    ScheduleCapacity,
    MissingRange,
    RangeAlignment,
    HoleCount,
    VertexBudget,
    ComponentCount,
    PolygonType,
    RetainedBoundary,
    IndexMemory,
    LeafTile,
    SummaryMemory,
    Invalidated,
    JointRange,
    JointReservation,
    JointGap,
    JointOverflow,
    JointDemand,
    JointRevisit,
    JointUnread,
    JointIo,
    JointPredicateWork,
    JointNodes,
    JointSummaryCost,
    JointBoundaryWork,
    JointRawPage,
    JointRawCost,
    JointSpans,
    JointForestMemory,
    MissingField,
    LongIdentifier,
    UnknownOperation,
    UnknownField,
    FieldNotBoolean,
    FieldNotText,
    CoverageStrategy,
    PlanExclusive,
    PathOrRaster,
    PopulationMode,
    NumericalMode,
    IndexCount,
    RetainedIndexMemory,
    UnknownReader,
    UnknownIndex,
    ReaderCount,
    ReaderMemory,
    SourceCapacity,
    CompileMemory,
    JobCount,
    UnknownJob,
    FileIdentity,
    FileCount,
    FileExists,
    FilePath,
    FileMetadata,
    UnknownFile,
    CacheBudget,
    SourceCount,
    SourceExists,
    SourceMetadataBudget,
    SessionMemory,
    UnknownSource,
    UnknownPlan,
    PlanCount,
    PlanExists,
    PlanMemory,
    PreparedMemory,
    RequestLength,
    RequestMemory,
    OtherSource,
    IndexQueryMemory,
    InsufficientMemory,
    TableFull,
    ExactextractOptions,
    PersistentOptions,
    RetainedConflict,
    IndexedFile,
    PersistentBackend,
    RegisteredPath,
    PathSource,
    ExecutionBackend,
    BackendOptions,
    HierarchyPlan,
    PreparationBackend,
    RowBlocksIndex,
    OrderedPolicy,
    OrderedMode,
    ExactextractPlan,
    AdapterBand,
    AdapterBlock,
    AdapterBlockBound,
    AdapterSelectedBound,
    AdapterMaskBound,
    AdapterMaskTotal,
    AdapterBands,
    AdapterBuffer,
    RawAccess,
    RawBandGroup,
    RawScratch,
    RawBufferBound,
    RawOutside,
    RawWindowBudget,
    SourceWindowBudget,
    DecoderBlock,
    RawSize,
    RawBandSize,
    PrefetchFormat,
    RemoteNetcdf,
    CompileFormat,
    RemoteLength,
    RemoteValidator,
    RemoteManifest,
    VerificationBudget,
    SourceSidecar,
    LocalLength,
    RemoteDigest,
    LocalDigest,
    SourceChanged,
    PrefetchCapacity,
    TiffVariable,
    NetcdfVariable,
    NetcdfSelector,
    NetcdfQuoting,
    NativeBands,
    OverviewScalar,
    OverviewScaling,
    OverviewNodata,
    OverviewUnit,
    DescriptionBudget,
    Curvilinear,
    LongitudeCrs,
    MaskBlock,
    RegistrationBudget,
    NetcdfDimensions,
    NetcdfShape,
    NetcdfVector,
    NetcdfDescending,
    NetcdfCoordinates,
    RawProvenance,
    ExactextractJob,
    ScratchMemory,
    NotPrepared,
    ProfileBytes,
    ProfileQuery,
    ProfileAccess,
    ProfileRetained,
    ProfileRaw,
    ProfileOpened,
    ProfileSize,
    SkvContent,
    CodecInput,
    OrderedMemory,
    VerifyMemory,
    BuilderSessionMemory,
    PopulationMemory,
    DirectMemory,
    UnitLength,
    MetadataBands,
    SkvRawBudget,
    BandShape,
    ValidNonfinite,
    HierarchyLeaf,
    CumulativeSettings,
    PopulationBuild,
    PlanGrid,
    QueryCrs,
    AccessClass,
    AuditCount,
}

} // verus!
