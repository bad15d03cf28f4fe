use vstd::prelude::*;

verus! {

#[verifier::external_type_specification]
#[verifier::external_body]
pub struct ExNagaModule(naga::Module);

#[verifier::external_type_specification]
#[verifier::external_body]
pub struct ExNagaParseError(naga::front::wgsl::ParseError);

#[verifier::external_type_specification]
#[verifier::external_body]
pub struct ExNagaValidationError(naga::valid::ValidationError);

#[verifier::external_type_specification]
#[verifier::external_body]
#[verifier::reject_recursive_types(E)]
pub struct ExNagaWithSpan<E>(naga::WithSpan<E>);

#[verifier::external_type_specification]
#[verifier::external_body]
pub struct ExNagaShaderStage(naga::ShaderStage);

#[verifier::external_type_specification]
#[verifier::external_body]
pub struct ExNagaAddressSpace(naga::AddressSpace);

/// Stage of the programmable pipeline an entry point serves.
#[derive(Copy, Clone, Debug, PartialEq, Eq, Structural)]
pub enum PipelineStage {
    Vertex,
    Task,
    Mesh,
    Fragment,
    Compute,
    RayGeneration,
    Miss,
    AnyHit,
    ClosestHit,
}

/// Where a global variable lives; `Storage` carries its access bits
/// (load 1, store 2, atomic 4).
#[derive(Copy, Clone, Debug, PartialEq, Eq, Structural)]
pub enum VariableSpace {
    Function,
    Private,
    WorkGroup,
    Uniform,
    Storage { access: u32 },
    Handle,
    Immediate,
    TaskPayload,
    RayPayload,
    IncomingRayPayload,
}

/// Why a WGSL source was refused.
#[derive(Debug)]
pub enum WgslValidationError {
    Parse(naga::front::wgsl::ParseError),
    Validate(Box<naga::WithSpan<naga::valid::ValidationError>>),
    EntryPoint { stage: PipelineStage, name: &'static str },
    Binding { group: u32, binding: u32, expected: VariableSpace, found: Option<VariableSpace> },
}

/// Whether naga's WGSL front end accepts the source text.
pub uninterp spec fn wgsl_parses(source: Seq<char>) -> bool;

/// The module naga's WGSL front end builds from the source text.
pub uninterp spec fn wgsl_module(source: Seq<char>) -> naga::Module;

/// Whether naga's validator, with every validation flag and no optional
/// capability, accepts the module.
pub uninterp spec fn module_validates(module: naga::Module) -> bool;

/// The module's global variables, in declaration order, each as its resource
/// binding (group, binding), if any, and its address space.
pub uninterp spec fn module_bindings(module: naga::Module) -> Seq<(Option<(u32, u32)>, VariableSpace)>;

/// The module's entry points, in declaration order, each as its stage and name.
pub uninterp spec fn module_entries(module: naga::Module) -> Seq<(PipelineStage, Seq<char>)>;

/// Calls `naga::front::wgsl::parse_str`. Claimed: it succeeds exactly when
/// the named predicate holds of the source text, and the module it builds is
/// the one named for that text, so both depend on the text alone. Nothing is
/// claimed of the error. The outside documentation warns that on some
/// platforms a deeply nested source can exhaust the thread's stack before
/// naga's own recursion limit; nothing here bounds that.
#[verifier::external_body]
fn parse_wgsl(source: &str) -> (r: Result<naga::Module, naga::front::wgsl::ParseError>)
    ensures
        r is Ok <==> wgsl_parses(source@),
        r matches Ok(m) ==> m == wgsl_module(source@),
{
    naga::front::wgsl::parse_str(source)
}

/// Calls `naga::valid::Validator::new` with every validation flag and no
/// optional capability, and `Validator::validate` on the module with it; the
/// module info returned on success is dropped. Claimed: it succeeds exactly
/// when the named predicate holds of the module. Nothing is claimed of the
/// error.
#[verifier::external_body]
fn validate_module(module: &naga::Module) -> (r: Result<(), naga::WithSpan<naga::valid::ValidationError>>)
    ensures
        r is Ok <==> module_validates(*module),
{
    let mut validator = naga::valid::Validator::new(
        naga::valid::ValidationFlags::all(),
        naga::valid::Capabilities::empty(),
    );
    match validator.validate(module) {
        Ok(_) => Ok(()),
        Err(error) => Err(error),
    }
}

/// Converts a `naga::ShaderStage` variant to the same-named variant here.
#[verifier::external_body]
fn stage_of(stage: naga::ShaderStage) -> PipelineStage {
    match stage {
        naga::ShaderStage::Vertex => PipelineStage::Vertex,
        naga::ShaderStage::Task => PipelineStage::Task,
        naga::ShaderStage::Mesh => PipelineStage::Mesh,
        naga::ShaderStage::Fragment => PipelineStage::Fragment,
        naga::ShaderStage::Compute => PipelineStage::Compute,
        naga::ShaderStage::RayGeneration => PipelineStage::RayGeneration,
        naga::ShaderStage::Miss => PipelineStage::Miss,
        naga::ShaderStage::AnyHit => PipelineStage::AnyHit,
        naga::ShaderStage::ClosestHit => PipelineStage::ClosestHit,
    }
}

/// Converts a `naga::AddressSpace` variant to the same-named variant here,
/// a storage space with its access flags' bits (`StorageAccess::bits`).
#[verifier::external_body]
fn address_space_of(space: naga::AddressSpace) -> VariableSpace {
    match space {
        naga::AddressSpace::Function => VariableSpace::Function,
        naga::AddressSpace::Private => VariableSpace::Private,
        naga::AddressSpace::WorkGroup => VariableSpace::WorkGroup,
        naga::AddressSpace::Uniform => VariableSpace::Uniform,
        naga::AddressSpace::Storage { access } => VariableSpace::Storage { access: access.bits() },
        naga::AddressSpace::Handle => VariableSpace::Handle,
        naga::AddressSpace::Immediate => VariableSpace::Immediate,
        naga::AddressSpace::TaskPayload => VariableSpace::TaskPayload,
        naga::AddressSpace::RayPayload => VariableSpace::RayPayload,
        naga::AddressSpace::IncomingRayPayload => VariableSpace::IncomingRayPayload,
    }
}

/// Reads a parsed module's global variables, in declaration order, each as
/// its resource binding (group, binding), if any, and its address space.
/// Claimed: the list is the one named for the module.
#[verifier::external_body]
fn global_bindings(module: &naga::Module) -> (r: Vec<(Option<(u32, u32)>, VariableSpace)>)
    ensures
        r@ == module_bindings(*module),
{
    module
        .global_variables
        .iter()
        .map(|(_, v)| (v.binding.as_ref().map(|b| (b.group, b.binding)), address_space_of(v.space)))
        .collect()
}

/// Reads a parsed module's entry points, in declaration order, each as its
/// stage and name. Claimed: the list is the one named for the module.
#[verifier::external_body]
fn entry_points(module: &naga::Module) -> (r: Vec<(PipelineStage, String)>)
    ensures
        r@.map_values(|e: (PipelineStage, String)| (e.0, e.1@)) == module_entries(*module),
{
    module.entry_points.iter().map(|e| (stage_of(e.stage), e.name.clone())).collect()
}

/// The source ends in a line feed.
pub open spec fn ends_in_newline(s: Seq<char>) -> bool {
    s.len() > 0 && s.last() == '\n'
}

/// The module text, ended by a line feed if it lacks one.
pub open spec fn terminated(s: Seq<char>) -> Seq<char> {
    if ends_in_newline(s) {
        s
    } else {
        s.push('\n')
    }
}

/// The modules one after another, each ended by a line feed.
pub open spec fn assembled(modules: Seq<Seq<char>>) -> Seq<char>
    decreases modules.len(),
{
    if modules.len() == 0 {
        Seq::empty()
    } else {
        assembled(modules.drop_last()) + terminated(modules.last())
    }
}

fn ends_with_newline(s: &str) -> (r: bool)
    ensures
        r == ends_in_newline(s@),
{
    let n = s.unicode_len();
    if n == 0 {
        false
    } else {
        s.get_char(n - 1) == '\n'
    }
}

fn push_terminated(out: &mut String, module: &str)
    ensures
        final(out)@ == old(out)@ + terminated(module@),
{
    out.append(module);
    if !ends_with_newline(module) {
        proof {
            reveal_strlit("\n");
        }
        out.append("\n");
        proof {
            assert(old(out)@ + module@ + "\n"@ =~= old(out)@ + module@.push('\n'));
        }
    }
}

/// Joins WGSL modules, given in dependency order, into one source.
pub fn assemble_wgsl(modules: &[&str]) -> (r: String)
    ensures
        r@ == assembled(modules@.map_values(|m: &str| m@)),
{
    let ghost views = modules@.map_values(|m: &str| m@);
    let mut source = String::new();
    let mut i: usize = 0;
    while i < modules.len()
        invariant
            i <= modules@.len(),
            views == modules@.map_values(|m: &str| m@),
            source@ == assembled(views.take(i as int)),
        decreases modules@.len() - i,
    {
        push_terminated(&mut source, modules[i]);
        proof {
            assert(views.take(i as int + 1).drop_last() =~= views.take(i as int));
            assert(views.take(i as int + 1).last() == modules@[i as int]@);
        }
        i = i + 1;
    }
    proof {
        assert(views.take(modules@.len() as int) =~= views);
    }
    source
}

/// The full source of a shader: the space prelude, the scene module if any,
/// then the user shader, each after a banner line.
pub open spec fn assembled_with_scene(
    space: Seq<char>,
    scene: Option<Seq<char>>,
    user: Seq<char>,
) -> Seq<char> {
    let head = "// ---- loam-math Space prelude ----\n"@ + terminated(space);
    let middle = match scene {
        Some(s) => "// ---- loam-scene scene module ----\n"@ + terminated(s),
        None => Seq::empty(),
    };
    head + middle + "// ---- user shader ----\n"@ + user
}

pub fn assemble_source_with_scene(space_wgsl: &str, scene_wgsl: Option<&str>, user_source: &str) -> (r:
    String)
    ensures
        r@ == assembled_with_scene(
            space_wgsl@,
            match scene_wgsl {
                Some(s) => Some(s@),
                None => None,
            },
            user_source@,
        ),
{
    let mut out = String::from_str("// ---- loam-math Space prelude ----\n");
    push_terminated(&mut out, space_wgsl);
    let ghost head = out@;
    match scene_wgsl {
        Some(scene) => {
            out.append("// ---- loam-scene scene module ----\n");
            push_terminated(&mut out, scene);
            proof {
                assert(out@ =~= head + ("// ---- loam-scene scene module ----\n"@ + terminated(
                    scene@,
                )));
            }
        },
        None => {
            proof {
                assert(out@ =~= head + Seq::<char>::empty());
            }
        },
    }
    out.append("// ---- user shader ----\n");
    out.append(user_source);
    out
}

/// The banner that opens the geodesic march kernel in a scene's source.
pub open spec fn kernel_banner() -> Seq<char> {
    "// ---- loam geodesic march kernel ----\n"@
}

/// A scene's source followed by the geodesic march kernel under its banner.
pub fn join_geodesic_kernel(scene_source: &str, kernel: &str) -> (r: String)
    ensures
        r@ == scene_source@ + kernel_banner() + kernel@,
{
    let mut out = String::from_str(scene_source);
    out.append("// ---- loam geodesic march kernel ----\n");
    out.append(kernel);
    out
}

/// Parses and validates a WGSL source headlessly.
pub fn validate_wgsl(source: &str) -> (r: Result<(), WgslValidationError>)
    ensures
        !wgsl_parses(source@) ==> r matches Err(WgslValidationError::Parse(_)),
        wgsl_parses(source@) && !module_validates(wgsl_module(source@)) ==> r matches Err(
            WgslValidationError::Validate(_),
        ),
        wgsl_parses(source@) && module_validates(wgsl_module(source@)) ==> r is Ok,
{
    match parse_and_validate(source) {
        Ok(_) => Ok(()),
        Err(e) => Err(e),
    }
}

fn parse_and_validate(source: &str) -> (r: Result<naga::Module, WgslValidationError>)
    ensures
        !wgsl_parses(source@) ==> r matches Err(WgslValidationError::Parse(_)),
        wgsl_parses(source@) && !module_validates(wgsl_module(source@)) ==> r matches Err(
            WgslValidationError::Validate(_),
        ),
        wgsl_parses(source@) && module_validates(wgsl_module(source@)) ==> (r matches Ok(m) && m
            == wgsl_module(source@)),
{
    let module = match parse_wgsl(source) {
        Ok(module) => module,
        Err(error) => return Err(WgslValidationError::Parse(error)),
    };
    match validate_module(&module) {
        Ok(()) => Ok(module),
        Err(error) => Err(WgslValidationError::Validate(Box::new(error))),
    }
}

/// What validating a source as a full-screen pass with the given fragment
/// entries and bindings refuses, once it parses and validates.
pub open spec fn render_refusal(
    source: Seq<char>,
    fragments: Seq<&'static str>,
    required: Seq<(u32, u32, VariableSpace)>,
) -> Option<WgslValidationError> {
    let m = wgsl_module(source);
    render_check(module_bindings(m), module_entries(m), fragments, required)
}

/// The address space of the first global bound at (group, binding).
pub open spec fn bound_space(
    bindings: Seq<(Option<(u32, u32)>, VariableSpace)>,
    group: u32,
    binding: u32,
) -> Option<VariableSpace>
    decreases bindings.len(),
{
    if bindings.len() == 0 {
        None
    } else if bindings[0].0 == Some((group, binding)) {
        Some(bindings[0].1)
    } else {
        bound_space(bindings.drop_first(), group, binding)
    }
}

/// The first required binding the module does not declare as required.
pub open spec fn first_binding_refusal(
    bindings: Seq<(Option<(u32, u32)>, VariableSpace)>,
    required: Seq<(u32, u32, VariableSpace)>,
) -> Option<WgslValidationError>
    decreases required.len(),
{
    if required.len() == 0 {
        None
    } else {
        let (group, binding, expected) = required[0];
        let found = bound_space(bindings, group, binding);
        if found != Some(expected) {
            Some(WgslValidationError::Binding { group, binding, expected, found })
        } else {
            first_binding_refusal(bindings, required.drop_first())
        }
    }
}

/// The entry points a full-screen pass needs: its vertex entry, then each fragment entry.
pub open spec fn required_entries(fragments: Seq<&'static str>) -> Seq<(PipelineStage, &'static str)> {
    seq![(PipelineStage::Vertex, "vs_fullscreen")] + fragments.map_values(
        |f: &'static str| (PipelineStage::Fragment, f),
    )
}

/// The first required entry point that the module lacks.
pub open spec fn first_missing_entry(
    entries: Seq<(PipelineStage, Seq<char>)>,
    required: Seq<(PipelineStage, &'static str)>,
) -> Option<WgslValidationError>
    decreases required.len(),
{
    if required.len() == 0 {
        None
    } else {
        let (stage, name) = required[0];
        if exists|k: int| 0 <= k < entries.len() && entries[k] == (stage, name@) {
            first_missing_entry(entries, required.drop_first())
        } else {
            Some(WgslValidationError::EntryPoint { stage, name })
        }
    }
}

/// What the module's bindings and entry points say of a full-screen pass.
pub open spec fn render_check(
    bindings: Seq<(Option<(u32, u32)>, VariableSpace)>,
    entries: Seq<(PipelineStage, Seq<char>)>,
    fragments: Seq<&'static str>,
    required: Seq<(u32, u32, VariableSpace)>,
) -> Option<WgslValidationError> {
    match first_binding_refusal(bindings, required) {
        Some(e) => Some(e),
        None => first_missing_entry(entries, required_entries(fragments)),
    }
}

fn find_bound_space(bindings: &[(Option<(u32, u32)>, VariableSpace)], group: u32, binding: u32) -> (r:
    Option<VariableSpace>)
    ensures
        r == bound_space(bindings@, group, binding),
{
    proof {
        assert(bindings@.skip(0) =~= bindings@);
    }
    let mut k: usize = 0;
    while k < bindings.len()
        invariant
            k <= bindings@.len(),
            bound_space(bindings@, group, binding) == bound_space(
                bindings@.skip(k as int),
                group,
                binding,
            ),
        decreases bindings@.len() - k,
    {
        proof {
            assert(bindings@.skip(k as int).drop_first() =~= bindings@.skip(k as int + 1));
            assert(bindings@.skip(k as int)[0] == bindings@[k as int]);
        }
        let (b, space) = bindings[k];
        match b {
            Some((g, i)) => {
                if g == group && i == binding {
                    return Some(space);
                }
            },
            None => {},
        }
        k = k + 1;
    }
    proof {
        assert(bindings@.skip(k as int) =~= Seq::<(Option<(u32, u32)>, VariableSpace)>::empty());
    }
    None
}

fn has_entry(entries: &[(PipelineStage, String)], stage: PipelineStage, name: &str) -> (r: bool)
    ensures
        r == exists|k: int|
            0 <= k < entries@.len() && (entries@[k].0, entries@[k].1@) == (stage, name@),
{
    let wanted = String::from_str(name);
    let mut k: usize = 0;
    while k < entries.len()
        invariant
            k <= entries@.len(),
            wanted@ == name@,
            forall|q: int| 0 <= q < k ==> (entries@[q].0, entries@[q].1@) != (stage, name@),
        decreases entries@.len() - k,
    {
        if entries[k].0 == stage && entries[k].1 == wanted {
            return true;
        }
        k = k + 1;
    }
    false
}

/// Checks a validated module's bindings and entry points against what a
/// full-screen pass needs: each required binding, in order, must be declared
/// in the required address space; then the vertex entry `vs_fullscreen` and
/// each fragment entry, in order, must exist.
pub fn check_render_module(
    bindings: &[(Option<(u32, u32)>, VariableSpace)],
    entries: &[(PipelineStage, String)],
    fragment_entries: &[&'static str],
    required_bindings: &[(u32, u32, VariableSpace)],
) -> (r: Result<(), WgslValidationError>)
    ensures
        ({
            let entry_views = entries@.map_values(|e: (PipelineStage, String)| (e.0, e.1@));
            match render_check(bindings@, entry_views, fragment_entries@, required_bindings@) {
                Some(e) => r == Err::<(), WgslValidationError>(e),
                None => r is Ok,
            }
        }),
{
    let ghost entry_views = entries@.map_values(|e: (PipelineStage, String)| (e.0, e.1@));
    proof {
        assert(required_bindings@.skip(0) =~= required_bindings@);
    }
    let mut k: usize = 0;
    while k < required_bindings.len()
        invariant
            k <= required_bindings@.len(),
            first_binding_refusal(bindings@, required_bindings@) == first_binding_refusal(
                bindings@,
                required_bindings@.skip(k as int),
            ),
        decreases required_bindings@.len() - k,
    {
        proof {
            assert(required_bindings@.skip(k as int).drop_first() =~= required_bindings@.skip(
                k as int + 1,
            ));
            assert(required_bindings@.skip(k as int)[0] == required_bindings@[k as int]);
        }
        let (group, binding, expected) = required_bindings[k];
        let found = find_bound_space(bindings, group, binding);
        let matches = match found {
            Some(space) => space == expected,
            None => false,
        };
        if !matches {
            return Err(WgslValidationError::Binding { group, binding, expected, found });
        }
        k = k + 1;
    }
    proof {
        assert(required_bindings@.skip(k as int) =~= Seq::<(u32, u32, VariableSpace)>::empty());
    }
    let ghost req = required_entries(fragment_entries@);
    proof {
        reveal_strlit("vs_fullscreen");
    }
    if !has_entry(entries, PipelineStage::Vertex, "vs_fullscreen") {
        proof {
            assert(req[0] == (PipelineStage::Vertex, "vs_fullscreen"));
            assert forall|q: int| 0 <= q < entry_views.len() implies entry_views[q] != (
            PipelineStage::Vertex,
            "vs_fullscreen"@,
            ) by {
                assert(entry_views[q] == (entries@[q].0, entries@[q].1@));
            }
        }
        return Err(WgslValidationError::EntryPoint { stage: PipelineStage::Vertex, name: "vs_fullscreen" });
    }
    proof {
        let q = choose|q: int|
            0 <= q < entries@.len() && (entries@[q].0, entries@[q].1@) == (
                PipelineStage::Vertex,
                "vs_fullscreen"@,
            );
        assert(entry_views[q] == (entries@[q].0, entries@[q].1@));
        assert(req.drop_first() =~= fragment_entries@.map_values(
            |f: &'static str| (PipelineStage::Fragment, f),
        ));
        assert(fragment_entries@.skip(0) =~= fragment_entries@);
        assert(req[0] == (PipelineStage::Vertex, "vs_fullscreen"));
        assert(entry_views[q] == (req[0].0, req[0].1@));
        assert(first_missing_entry(entry_views, req) == first_missing_entry(entry_views, req.drop_first()));
        assert(first_binding_refusal(bindings@, required_bindings@) is None);
    }
    let mut f: usize = 0;
    while f < fragment_entries.len()
        invariant
            f <= fragment_entries@.len(),
            entry_views == entries@.map_values(|e: (PipelineStage, String)| (e.0, e.1@)),
            req == required_entries(fragment_entries@),
            first_binding_refusal(bindings@, required_bindings@) is None,
            first_missing_entry(entry_views, req) == first_missing_entry(
                entry_views,
                fragment_entries@.skip(f as int).map_values(
                    |x: &'static str| (PipelineStage::Fragment, x),
                ),
            ),
        decreases fragment_entries@.len() - f,
    {
        let name = fragment_entries[f];
        let ghost rest = fragment_entries@.skip(f as int).map_values(
            |x: &'static str| (PipelineStage::Fragment, x),
        );
        proof {
            assert(rest.drop_first() =~= fragment_entries@.skip(f as int + 1).map_values(
                |x: &'static str| (PipelineStage::Fragment, x),
            ));
            assert(rest[0] == (PipelineStage::Fragment, name));
        }
        if !has_entry(entries, PipelineStage::Fragment, name) {
            proof {
                assert forall|q: int| 0 <= q < entry_views.len() implies entry_views[q] != (
                PipelineStage::Fragment,
                name@,
                ) by {
                    assert(entry_views[q] == (entries@[q].0, entries@[q].1@));
                }
                assert(first_missing_entry(entry_views, rest) == Some(
                    WgslValidationError::EntryPoint { stage: PipelineStage::Fragment, name },
                ));
            }
            return Err(WgslValidationError::EntryPoint { stage: PipelineStage::Fragment, name });
        }
        proof {
            let q = choose|q: int|
                0 <= q < entries@.len() && (entries@[q].0, entries@[q].1@) == (
                    PipelineStage::Fragment,
                    name@,
                );
            assert(entry_views[q] == (entries@[q].0, entries@[q].1@));
        }
        f = f + 1;
    }
    proof {
        assert(fragment_entries@.skip(f as int).map_values(
            |x: &'static str| (PipelineStage::Fragment, x),
        ) =~= Seq::<(PipelineStage, &'static str)>::empty());
    }
    Ok(())
}

/// Validates the source, then checks it serves a full-screen pass with the
/// given fragment entries and bindings.
pub fn validate_render_wgsl(
    source: &str,
    fragment_entries: &[&'static str],
    required_bindings: &[(u32, u32, VariableSpace)],
) -> (r: Result<(), WgslValidationError>)
    ensures
        !wgsl_parses(source@) ==> r matches Err(WgslValidationError::Parse(_)),
        wgsl_parses(source@) && !module_validates(wgsl_module(source@)) ==> r matches Err(
            WgslValidationError::Validate(_),
        ),
        wgsl_parses(source@) && module_validates(wgsl_module(source@)) ==> match render_refusal(
            source@,
            fragment_entries@,
            required_bindings@,
        ) {
            Some(e) => r == Err::<(), WgslValidationError>(e),
            None => r is Ok,
        },
{
    let module = match parse_and_validate(source) {
        Ok(module) => module,
        Err(e) => return Err(e),
    };
    let bindings = global_bindings(&module);
    let entries = entry_points(&module);
    check_render_module(bindings.as_slice(), entries.as_slice(), fragment_entries, required_bindings)
}

/// The ray-march pass's fragment entry.
pub open spec fn raymarch_fragments() -> Seq<&'static str> {
    seq!["fs_main"]
}

/// The ray-march pass's uniform block at 0:0.
pub open spec fn raymarch_bindings() -> Seq<(u32, u32, VariableSpace)> {
    seq![(0u32, 0u32, VariableSpace::Uniform)]
}

/// The ray-march pass's fragment entry and its uniform block at 0:0.
pub fn validate_raymarch_wgsl(source: &str) -> (r: Result<(), WgslValidationError>)
    ensures
        !wgsl_parses(source@) ==> r matches Err(WgslValidationError::Parse(_)),
        wgsl_parses(source@) && !module_validates(wgsl_module(source@)) ==> r matches Err(
            WgslValidationError::Validate(_),
        ),
        wgsl_parses(source@) && module_validates(wgsl_module(source@)) ==> match render_refusal(
            source@,
            raymarch_fragments(),
            raymarch_bindings(),
        ) {
            Some(e) => r == Err::<(), WgslValidationError>(e),
            None => r is Ok,
        },
{
    let fragments: [&'static str; 1] = ["fs_main"];
    let bindings: [(u32, u32, VariableSpace); 1] = [(0, 0, VariableSpace::Uniform)];
    proof {
        assert(fragments@ =~= raymarch_fragments());
        assert(bindings@ =~= raymarch_bindings());
    }
    validate_render_wgsl(source, &fragments, &bindings)
}

/// The hyperslice pass's color and depth fragment entries.
pub open spec fn hyperslice_fragments() -> Seq<&'static str> {
    seq!["fs_main", "fs_depth"]
}

/// The hyperslice pass's uniform block at 0:0 and read-only storage at 0:1.
pub open spec fn hyperslice_bindings() -> Seq<(u32, u32, VariableSpace)> {
    seq![(0u32, 0u32, VariableSpace::Uniform), (0u32, 1u32, VariableSpace::Storage { access: 1 })]
}

/// The hyperslice pass's color and depth fragment entries, its uniform block
/// at 0:0 and its read-only storage at 0:1.
pub fn validate_hyperslice_wgsl(source: &str) -> (r: Result<(), WgslValidationError>)
    ensures
        !wgsl_parses(source@) ==> r matches Err(WgslValidationError::Parse(_)),
        wgsl_parses(source@) && !module_validates(wgsl_module(source@)) ==> r matches Err(
            WgslValidationError::Validate(_),
        ),
        wgsl_parses(source@) && module_validates(wgsl_module(source@)) ==> match render_refusal(
            source@,
            hyperslice_fragments(),
            hyperslice_bindings(),
        ) {
            Some(e) => r == Err::<(), WgslValidationError>(e),
            None => r is Ok,
        },
{
    let fragments: [&'static str; 2] = ["fs_main", "fs_depth"];
    let bindings: [(u32, u32, VariableSpace); 2] = [
        (0, 0, VariableSpace::Uniform),
        (0, 1, VariableSpace::Storage { access: 1 }),
    ];
    proof {
        assert(fragments@ =~= hyperslice_fragments());
        assert(bindings@ =~= hyperslice_bindings());
    }
    validate_render_wgsl(source, &fragments, &bindings)
}

} // verus!
