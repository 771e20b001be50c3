//! Where generated files live.
//!
//! Everything KiCase writes is project-local and reproducible; nothing is
//! stashed in the user's home directory, the registry or a temporary folder.
//! Paths are kept as `/`-separated text.

use crate::config::{config_file_name, generated_dir_name, openscad_dir_name, project_dir_name};
use vstd::prelude::*;
use vstd::string::{StrSliceExecFns, StringExecFns};

verus! {

/// `name` inside the directory `dir`, as a path join writes it: no separator
/// is added to an empty directory or to one that already ends in `/`.
pub open spec fn path_join(dir: Seq<char>, name: Seq<char>) -> Seq<char> {
    if dir.len() == 0 {
        name
    } else if dir.last() == '/' {
        dir + name
    } else {
        dir + seq!['/'] + name
    }
}

/// `name` inside the directory `dir`.
pub fn join(dir: &str, name: &str) -> (r: String)
    ensures
        r@ == path_join(dir@, name@),
{
    let len = dir.unicode_len();
    if len == 0 {
        return name.to_owned();
    }
    let mut path = dir.to_owned();
    if dir.get_char(len - 1) != '/' {
        path.append("/");
        proof {
            reveal_strlit("/");
        }
    }
    path.append(name);
    path
}

/// Resolved output paths for one KiCad project.
#[derive(Debug, Clone, PartialEq, Eq)]
pub struct ExportPaths {
    pub project_dir: String,
    pub enclosure_dir: String,
    pub generated_dir: String,
    pub openscad_dir: String,
}

impl ExportPaths {
    /// The directories a project's state and output live in: `.enclosure`
    /// in the project, and `generated` and `openscad` inside that.
    pub open spec fn laid_out(&self, project_dir: Seq<char>) -> bool {
        &&& self.project_dir@ == project_dir
        &&& self.enclosure_dir@ == path_join(project_dir, ".enclosure"@)
        &&& self.generated_dir@ == path_join(self.enclosure_dir@, "generated"@)
        &&& self.openscad_dir@ == path_join(self.enclosure_dir@, "openscad"@)
    }

    pub fn new(project_dir: &str) -> (r: Self)
        ensures
            r.laid_out(project_dir@),
    {
        let enclosure_dir = join(project_dir, project_dir_name());
        ExportPaths {
            generated_dir: join(enclosure_dir.as_str(), generated_dir_name()),
            openscad_dir: join(enclosure_dir.as_str(), openscad_dir_name()),
            enclosure_dir,
            project_dir: project_dir.to_owned(),
        }
    }

    /// The project file.
    pub fn config(&self) -> (r: String)
        ensures
            r@ == path_join(self.enclosure_dir@, "enclosure.toml"@),
    {
        join(self.enclosure_dir.as_str(), config_file_name())
    }

    pub fn bottom_step(&self) -> (r: String)
        ensures
            r@ == path_join(self.generated_dir@, "bottom.step"@),
    {
        join(self.generated_dir.as_str(), "bottom.step")
    }

    pub fn lid_step(&self) -> (r: String)
        ensures
            r@ == path_join(self.generated_dir@, "lid.step"@),
    {
        join(self.generated_dir.as_str(), "lid.step")
    }

    /// The combined assembly, in preview coordinates.
    pub fn enclosure_step(&self) -> (r: String)
        ensures
            r@ == path_join(self.generated_dir@, "enclosure.step"@),
    {
        join(self.generated_dir.as_str(), "enclosure.step")
    }

    /// The bottom shell in preview coordinates, attached to the preview
    /// footprint as its own 3D model so it can be hidden independently.
    pub fn preview_bottom_step(&self) -> (r: String)
        ensures
            r@ == path_join(self.generated_dir@, "preview-bottom.step"@),
    {
        join(self.generated_dir.as_str(), "preview-bottom.step")
    }

    /// The lid in preview coordinates, attached as its own 3D model.
    pub fn preview_lid_step(&self) -> (r: String)
        ensures
            r@ == path_join(self.generated_dir@, "preview-lid.step"@),
    {
        join(self.generated_dir.as_str(), "preview-lid.step")
    }

    pub fn bottom_stl(&self) -> (r: String)
        ensures
            r@ == path_join(self.generated_dir@, "bottom.stl"@),
    {
        join(self.generated_dir.as_str(), "bottom.stl")
    }

    pub fn lid_stl(&self) -> (r: String)
        ensures
            r@ == path_join(self.generated_dir@, "lid.stl"@),
    {
        join(self.generated_dir.as_str(), "lid.stl")
    }

    pub fn generated_scad(&self) -> (r: String)
        ensures
            r@ == path_join(self.openscad_dir@, "generated.scad"@),
    {
        join(self.openscad_dir.as_str(), "generated.scad")
    }

    /// Never overwritten once it exists.
    pub fn custom_scad(&self) -> (r: String)
        ensures
            r@ == path_join(self.openscad_dir@, "custom.scad"@),
    {
        join(self.openscad_dir.as_str(), "custom.scad")
    }

    /// Project-local footprint library holding the preview footprint.
    pub fn preview_library_dir(&self) -> (r: String)
        ensures
            r@ == path_join(self.enclosure_dir@, "kicase.pretty"@),
    {
        join(self.enclosure_dir.as_str(), "kicase.pretty")
    }

    /// Paths KiCad stores in the preview footprint, using its own project
    /// variable so the board stays portable. The bottom and the lid are two
    /// separate models, because KiCad lets a footprint's models be shown and
    /// hidden one at a time.
    pub fn preview_model_references() -> (r: [&'static str; 2])
        ensures
            r@[0]@ == "${KIPRJMOD}/.enclosure/generated/preview-bottom.step"@,
            r@[1]@ == "${KIPRJMOD}/.enclosure/generated/preview-lid.step"@,
    {
        [
            "${KIPRJMOD}/.enclosure/generated/preview-bottom.step",
            "${KIPRJMOD}/.enclosure/generated/preview-lid.step",
        ]
    }
}

/// A named solid, used when writing multi-part STEP assemblies.
pub struct NamedSolid<'a, S> {
    pub name: &'a str,
    pub solid: &'a S,
}

/// The two parts of the combined assembly, named as KiCad's viewer lists
/// them: the bottom shell, then the lid.
pub fn assembly_parts<'a, S>(bottom: &'a S, lid: &'a S) -> (r: [NamedSolid<'a, S>; 2])
    ensures
        r@[0].name@ == "bottom"@,
        r@[0].solid == bottom,
        r@[1].name@ == "lid"@,
        r@[1].solid == lid,
{
    [NamedSolid { name: "bottom", solid: bottom }, NamedSolid { name: "lid", solid: lid }]
}

/// The text after `${KIPRJMOD}` in the reference to the preview bottom.
pub open spec fn preview_bottom_suffix() -> Seq<char> {
    "/.enclosure/generated/preview-bottom.step"@
}

/// The text after `${KIPRJMOD}` in the reference to the preview lid.
pub open spec fn preview_lid_suffix() -> Seq<char> {
    "/.enclosure/generated/preview-lid.step"@
}

/// The preview references name the preview files: each is `${KIPRJMOD}`
/// followed by a text that starts with `/`, and after a project directory `p`
/// that text gives the path of the file in the paths laid out for `p`
/// ([`ExportPaths::preview_bottom_step`] and
/// [`ExportPaths::preview_lid_step`] compute exactly these). So reading
/// `${KIPRJMOD}` as `p` names those files: exactly, and when `p` ends in `/`,
/// with that separator doubled, which names the same file. An empty
/// directory is left out: there the reference would name a file at the root
/// of the file system, and the join one relative to the working directory.
pub proof fn lemma_preview_references_name_the_preview_files(paths: ExportPaths, p: Seq<char>)
    requires
        paths.laid_out(p),
        p.len() > 0,
    ensures
        "${KIPRJMOD}/.enclosure/generated/preview-bottom.step"@ == "${KIPRJMOD}"@
            + preview_bottom_suffix(),
        "${KIPRJMOD}/.enclosure/generated/preview-lid.step"@ == "${KIPRJMOD}"@
            + preview_lid_suffix(),
        preview_bottom_suffix()[0] == '/',
        preview_lid_suffix()[0] == '/',
        p.last() != '/' ==> path_join(paths.generated_dir@, "preview-bottom.step"@) == p
            + preview_bottom_suffix(),
        p.last() != '/' ==> path_join(paths.generated_dir@, "preview-lid.step"@) == p
            + preview_lid_suffix(),
        p.last() == '/' ==> path_join(paths.generated_dir@, "preview-bottom.step"@) == p
            + preview_bottom_suffix().drop_first(),
        p.last() == '/' ==> path_join(paths.generated_dir@, "preview-lid.step"@) == p
            + preview_lid_suffix().drop_first(),
{
    reveal_strlit("${KIPRJMOD}/.enclosure/generated/preview-bottom.step");
    reveal_strlit("${KIPRJMOD}/.enclosure/generated/preview-lid.step");
    reveal_strlit("${KIPRJMOD}");
    reveal_strlit("/.enclosure/generated/preview-bottom.step");
    reveal_strlit("/.enclosure/generated/preview-lid.step");
    reveal_strlit(".enclosure");
    reveal_strlit("generated");
    reveal_strlit("preview-bottom.step");
    reveal_strlit("preview-lid.step");
    let enc = if p.last() == '/' {
        p + ".enclosure"@
    } else {
        p + seq!['/'] + ".enclosure"@
    };
    let generated = enc + seq!['/'] + "generated"@;
    assert(path_join(p, ".enclosure"@) == enc);
    assert(enc.last() == 'e');
    assert(path_join(enc, "generated"@) == generated);
    assert(generated.last() == 'd');
    if p.last() == '/' {
        assert(p + preview_bottom_suffix().drop_first() =~= generated + seq!['/']
            + "preview-bottom.step"@);
        assert(p + preview_lid_suffix().drop_first() =~= generated + seq!['/']
            + "preview-lid.step"@);
    } else {
        assert(p + preview_bottom_suffix() =~= generated + seq!['/'] + "preview-bottom.step"@);
        assert(p + preview_lid_suffix() =~= generated + seq!['/'] + "preview-lid.step"@);
    }
    assert("${KIPRJMOD}/.enclosure/generated/preview-bottom.step"@ =~= "${KIPRJMOD}"@
        + preview_bottom_suffix());
    assert("${KIPRJMOD}/.enclosure/generated/preview-lid.step"@ =~= "${KIPRJMOD}"@
        + preview_lid_suffix());
}

/// The reference designator of the preview footprint.
pub fn preview_reference() -> (r: &'static str)
    ensures
        r@ == "ENCLOSURE_PREVIEW"@,
{
    "ENCLOSURE_PREVIEW"
}

/// The files produced by one export run.
#[derive(Debug, Clone, Default, PartialEq, Eq)]
pub struct ExportedFiles {
    pub step: Vec<String>,
    pub stl: Vec<String>,
    pub scad: Vec<String>,
}

impl ExportedFiles {
    /// Every file: the STEP files, then the STL files, then the OpenSCAD ones.
    pub fn all(&self) -> (r: Vec<&String>)
        ensures
            r@.map_values(|p: &String| *p) == self.step@ + self.stl@ + self.scad@,
    {
        let mut out: Vec<&String> = Vec::new();
        let mut i: usize = 0;
        while i < self.step.len()
            invariant
                i <= self.step@.len(),
                out@.map_values(|p: &String| *p) =~= self.step@.take(i as int),
            decreases self.step.len() - i,
        {
            out.push(&self.step[i]);
            assert(self.step@.take(i + 1) =~= self.step@.take(i as int).push(self.step@[i as int]));
            i = i + 1;
        }
        assert(self.step@.take(self.step@.len() as int) =~= self.step@);
        let mut i: usize = 0;
        while i < self.stl.len()
            invariant
                i <= self.stl@.len(),
                out@.map_values(|p: &String| *p) =~= self.step@ + self.stl@.take(i as int),
            decreases self.stl.len() - i,
        {
            let ghost before = out@;
            out.push(&self.stl[i]);
            assert(out@.map_values(|p: &String| *p) =~= before.map_values(|p: &String| *p).push(
                self.stl@[i as int],
            ));
            assert(self.step@ + self.stl@.take(i + 1) =~= (self.step@ + self.stl@.take(
                i as int,
            )).push(self.stl@[i as int]));
            i = i + 1;
        }
        assert(self.stl@.take(self.stl@.len() as int) =~= self.stl@);
        let mut i: usize = 0;
        while i < self.scad.len()
            invariant
                i <= self.scad@.len(),
                out@.map_values(|p: &String| *p) =~= self.step@ + self.stl@ + self.scad@.take(
                    i as int,
                ),
            decreases self.scad.len() - i,
        {
            let ghost before = out@;
            out.push(&self.scad[i]);
            assert(out@.map_values(|p: &String| *p) =~= before.map_values(|p: &String| *p).push(
                self.scad@[i as int],
            ));
            assert(self.step@ + self.stl@ + self.scad@.take(i + 1) =~= (self.step@ + self.stl@
                + self.scad@.take(i as int)).push(self.scad@[i as int]));
            i = i + 1;
        }
        assert(self.scad@.take(self.scad@.len() as int) =~= self.scad@);
        out
    }
}

} // verus!
