//! The kinds of layer shown in the scan view, how an imported file is
//! classified, and the tag each kind is stored under.
use vstd::prelude::*;

verus! {

/// The kinds of layer.
#[derive(Clone, Copy, PartialEq, Eq, Structural, Debug)]
pub enum ObjectKind {
    Gds,
    File,
    ScanImage,
    ScanArea,
}

/// Why a file could not be imported.
#[derive(Clone, Copy, PartialEq, Eq, Structural, Debug)]
pub enum ImportError {
    /// The extension names no supported format.
    UnsupportedType,
    /// The path has no extension, or one that is not text.
    NoExtension,
}

/// The kind an imported file becomes, by its extension: GDS layouts, and
/// PNG or JPEG images, in lower or upper case.
pub open spec fn import_kind_of(extension: Option<Seq<char>>) -> Result<ObjectKind, ImportError> {
    match extension {
        Some(e) => if e == "gds"@ || e == "GDS"@ {
            Ok(ObjectKind::Gds)
        } else if e == "png"@ || e == "jpeg"@ || e == "PNG"@ || e == "JPEG"@ {
            Ok(ObjectKind::File)
        } else {
            Err(ImportError::UnsupportedType)
        },
        None => Err(ImportError::NoExtension),
    }
}

/// The tag a kind is stored under.
pub open spec fn type_tag(kind: ObjectKind) -> Seq<char> {
    match kind {
        ObjectKind::Gds => "gds"@,
        ObjectKind::File => "file"@,
        ObjectKind::ScanImage => "scanimage"@,
        ObjectKind::ScanArea => "scanarea"@,
    }
}

/// The kind stored under `tag`, if any.
pub open spec fn kind_of_tag(tag: Seq<char>) -> Option<ObjectKind> {
    if tag == "gds"@ {
        Some(ObjectKind::Gds)
    } else if tag == "file"@ {
        Some(ObjectKind::File)
    } else if tag == "scanimage"@ {
        Some(ObjectKind::ScanImage)
    } else if tag == "scanarea"@ {
        Some(ObjectKind::ScanArea)
    } else {
        None
    }
}

/// Whether two texts are the same.
fn text_eq(a: &str, b: &str) -> (r: bool)
    ensures
        r == (a@ == b@),
{
    String::from_str(a) == String::from_str(b)
}

/// The kind an imported file becomes, as `import_kind_of` says.
pub fn import_kind(extension: Option<&str>) -> (r: Result<ObjectKind, ImportError>)
    ensures
        r == import_kind_of(
            match extension {
                Some(e) => Some(e@),
                None => None,
            },
        ),
{
    match extension {
        Some(e) => {
            if text_eq(e, "gds") || text_eq(e, "GDS") {
                Ok(ObjectKind::Gds)
            } else if text_eq(e, "png") || text_eq(e, "jpeg") || text_eq(e, "PNG") || text_eq(e, "JPEG") {
                Ok(ObjectKind::File)
            } else {
                Err(ImportError::UnsupportedType)
            }
        },
        None => Err(ImportError::NoExtension),
    }
}

impl ObjectKind {
    /// The tag the kind is stored under, as `type_tag` says.
    pub fn tag(&self) -> (r: &'static str)
        ensures
            r@ == type_tag(*self),
    {
        match self {
            ObjectKind::Gds => "gds",
            ObjectKind::File => "file",
            ObjectKind::ScanImage => "scanimage",
            ObjectKind::ScanArea => "scanarea",
        }
    }

    /// The kind stored under `tag`, as `kind_of_tag` says.
    pub fn from_tag(tag: &str) -> (r: Option<ObjectKind>)
        ensures
            r == kind_of_tag(tag@),
    {
        if text_eq(tag, "gds") {
            Some(ObjectKind::Gds)
        } else if text_eq(tag, "file") {
            Some(ObjectKind::File)
        } else if text_eq(tag, "scanimage") {
            Some(ObjectKind::ScanImage)
        } else if text_eq(tag, "scanarea") {
            Some(ObjectKind::ScanArea)
        } else {
            None
        }
    }

    /// Whether a layer of this kind may be scaled by hand: only imported
    /// images.
    pub fn is_scalable(&self) -> (r: bool)
        ensures
            r == (*self == ObjectKind::File),
    {
        match self {
            ObjectKind::File => true,
            _ => false,
        }
    }

    /// The fixed name of the layer, for the kinds that have one.
    pub fn fixed_name(&self) -> (r: Option<&'static str>)
        ensures
            *self == ObjectKind::ScanArea ==> r is Some && r.unwrap()@ == "Scan Region"@,
            *self != ObjectKind::ScanArea ==> r is None,
    {
        match self {
            ObjectKind::ScanArea => Some("Scan Region"),
            _ => None,
        }
    }
}

/// Every kind is read back from its stored tag.
pub proof fn lemma_tag_roundtrip(kind: ObjectKind)
    ensures
        kind_of_tag(type_tag(kind)) == Some(kind),
{
    reveal_strlit("gds");
    reveal_strlit("file");
    reveal_strlit("scanimage");
    reveal_strlit("scanarea");
    assert("gds"@.len() == 3 && "file"@.len() == 4 && "scanimage"@.len() == 9 && "scanarea"@.len() == 8);
    assert("gds"@ != "file"@);
    assert("gds"@ != "scanimage"@);
    assert("gds"@ != "scanarea"@);
    assert("file"@ != "scanimage"@);
    assert("file"@ != "scanarea"@);
    assert("scanimage"@ != "scanarea"@);
}

/// The extensions an import accepts: `png`, `jpeg`, `PNG` and `JPEG` are
/// image files, `gds` and `GDS` are layouts; every other extension is
/// refused as unsupported, and a path without one as lacking it.
pub proof fn lemma_import_extensions(e: Seq<char>)
    ensures
        e == seq!['p', 'n', 'g'] || e == seq!['j', 'p', 'e', 'g'] || e == seq!['P', 'N', 'G'] || e
            == seq!['J', 'P', 'E', 'G'] ==> import_kind_of(Some(e)) == Ok::<ObjectKind, ImportError>(
            ObjectKind::File,
        ),
        e == seq!['g', 'd', 's'] || e == seq!['G', 'D', 'S'] ==> import_kind_of(Some(e)) == Ok::<
            ObjectKind,
            ImportError,
        >(ObjectKind::Gds),
        e != seq!['p', 'n', 'g'] && e != seq!['j', 'p', 'e', 'g'] && e != seq!['P', 'N', 'G'] && e
            != seq!['J', 'P', 'E', 'G'] && e != seq!['g', 'd', 's'] && e != seq!['G', 'D', 'S']
            ==> import_kind_of(Some(e)) == Err::<ObjectKind, ImportError>(ImportError::UnsupportedType),
        import_kind_of(None) == Err::<ObjectKind, ImportError>(ImportError::NoExtension),
{
    reveal_strlit("gds");
    reveal_strlit("GDS");
    reveal_strlit("png");
    reveal_strlit("jpeg");
    reveal_strlit("PNG");
    reveal_strlit("JPEG");
    assert("gds"@ =~= seq!['g', 'd', 's']);
    assert("GDS"@ =~= seq!['G', 'D', 'S']);
    assert("png"@ =~= seq!['p', 'n', 'g']);
    assert("jpeg"@ =~= seq!['j', 'p', 'e', 'g']);
    assert("PNG"@ =~= seq!['P', 'N', 'G']);
    assert("JPEG"@ =~= seq!['J', 'P', 'E', 'G']);
}

} // verus!
