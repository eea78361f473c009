//! Extracting images into the shared arena and resolving material slots.
use vstd::prelude::*;
use vstd::string::StringExecFns;
use std::ops::Range;
use crate::accessor::{BufferMap, buffer_bytes, view_read, get_raw_data_via_buffer_view};
use crate::document::{Document, Image, TextureInfo};
use crate::document;
use crate::error::Error;
use crate::gltf::{ImageData, Material, MaterialKey, TargetFormat, TextureData};
use crate::uri::{ResourceFiles, read_uri_data, uri_ok, uri_resolved};

verus! {

/// The encoded bytes of image `img`: from its URI if it has one, else a
/// plain copy of its buffer view.
pub open spec fn image_ok(
    doc: Document,
    files: Seq<(String, Vec<u8>)>,
    buffers: Map<usize, Seq<u8>>,
    img: Image,
) -> Option<Seq<u8>> {
    match img.uri {
        Some(u) => uri_ok(u@, files),
        None => match img.buffer_view {
            Some(v) => if v < doc.buffer_views@.len() {
                match view_read(0, doc.buffer_views@[v as int], buffers, None, None) {
                    Ok(b) => Some(b),
                    Err(_) => None,
                }
            } else {
                None
            },
            None => None,
        },
    }
}

/// `e` is how extracting `img` fails.
pub open spec fn image_failed(
    e: Error,
    doc: Document,
    files: Seq<(String, Vec<u8>)>,
    buffers: Map<usize, Seq<u8>>,
    img: Image,
) -> bool {
    match img.uri {
        Some(u) => uri_resolved(Err(e), u@, files),
        None => match img.buffer_view {
            Some(v) => if v < doc.buffer_views@.len() {
                view_read(0, doc.buffer_views@[v as int], buffers, None, None) == Err::<
                    Seq<u8>,
                    Error,
                >(e)
            } else {
                e == Error::FailedGetBuffer
            },
            None => e == Error::FailedGetBuffer,
        },
    }
}

/// The mime type recorded for `img`: its own, or `image/png`.
pub open spec fn image_mime(img: Image) -> Seq<char> {
    match img.mime_type {
        Some(m) => m@,
        None => "image/png"@,
    }
}

/// `d` records image `img` whose bytes are `bytes` in the arena `arena`.
pub open spec fn image_recorded(d: ImageData, img: Image, bytes: Seq<u8>, arena: Seq<u8>) -> bool {
    &&& d.range.start <= d.range.end <= arena.len()
    &&& arena.subrange(d.range.start as int, d.range.end as int) == bytes
    &&& d.mime@ == image_mime(img)
    &&& d.target_format == TargetFormat::Rgba8UnormSrgb
}

/// The slot data for texture reference `ti` with `factor`, or `None` where
/// the reference, its image or its sampler dangles.
pub open spec fn slot_data(doc: Document, n_images: int, ti: Option<TextureInfo>, factor: [u32; 4]) -> Option<
    TextureData,
> {
    match ti {
        None => Some(TextureData { image_id: None, factor, tex_coord: 0, sampler: 0 }),
        Some(t) => if t.index >= doc.textures@.len() {
            None
        } else {
            let tex = doc.textures@[t.index as int];
            if (tex.source is Some && tex.source->Some_0 >= n_images) || (tex.sampler is Some
                && tex.sampler->Some_0 >= doc.samplers@.len()) {
                None
            } else {
                Some(
                    TextureData {
                        image_id: tex.source,
                        factor,
                        tex_coord: t.tex_coord,
                        sampler: match tex.sampler {
                            Some(s) => s,
                            None => 0,
                        },
                    },
                )
            }
        },
    }
}

/// The image that a normal-map reference `ti` samples, if any.
pub open spec fn normal_image(doc: Document, ti: Option<TextureInfo>) -> Option<usize> {
    match ti {
        Some(t) => if t.index < doc.textures@.len() {
            doc.textures@[t.index as int].source
        } else {
            None
        },
        None => None,
    }
}

/// A mime type of a self-describing compressed container (KTX), whose
/// pixel format the container itself states.
pub open spec fn is_container_mime(m: Seq<char>) -> bool {
    m == "ktx"@ || m == "image/ktx"@ || m == "image/ktx2"@
}

/// The image table after marking image `id` (if any) as linear, unless its
/// mime type names a self-describing container.
pub open spec fn mark_linear(images: Seq<ImageData>, id: Option<usize>) -> Seq<ImageData> {
    match id {
        Some(i) => if i < images.len() && !is_container_mime(images[i as int].mime@) {
            images.update(
                i as int,
                ImageData {
                    range: images[i as int].range,
                    mime: images[i as int].mime,
                    target_format: TargetFormat::Rgba8Unorm,
                },
            )
        } else {
            images
        },
        None => images,
    }
}

/// The arena holds `before` followed by the bytes of each new image, in
/// order, at the ranges that `recorded` gives.
pub open spec fn images_laid_out(
    recorded: Seq<ImageData>,
    before: Seq<u8>,
    after: Seq<u8>,
) -> bool {
    &&& after.subrange(0, before.len() as int) == before
    &&& recorded.len() == 0 ==> after.len() == before.len()
    &&& recorded.len() > 0 ==> {
        &&& recorded[0].range.start == before.len()
        &&& recorded.last().range.end == after.len()
    }
    &&& forall|i: int|
        0 <= i < recorded.len() - 1 ==> #[trigger] recorded[i].range.end == recorded[i
            + 1].range.start
}

/// Appends `data` to `out`; returns the appended range.
pub(crate) fn append_bytes(data: &Vec<u8>, out: &mut Vec<u8>) -> (r: Range<usize>)
    ensures
        final(out)@ == old(out)@ + data@,
        r.start == old(out)@.len(),
        r.end == final(out)@.len(),
{
    let start = out.len();
    let ghost base = out@;
    let mut i: usize = 0;
    while i < data.len()
        invariant
            0 <= i <= data@.len(),
            out@ == base + data@.subrange(0, i as int),
        decreases data@.len() - i,
    {
        out.push(data[i]);
        proof {
            assert(out@ =~= base + data@.subrange(0, i + 1));
        }
        i = i + 1;
    }
    assert(data@.subrange(0, data@.len() as int) =~= data@);
    start..out.len()
}

/// Whether `mime` names a self-describing compressed container.
fn is_container(mime: &String) -> (r: bool)
    ensures
        r == is_container_mime(mime@),
{
    let a = String::from_str("ktx");
    let b = String::from_str("image/ktx");
    let c = String::from_str("image/ktx2");
    *mime == a || *mime == b || *mime == c
}

/// Reads the images and resolves the materials of one document.
pub struct ImageLoader<'a> {
    pub gltf_info: &'a Document,
    pub files: &'a ResourceFiles,
    pub buffer_map: &'a BufferMap,
}

impl<'a> ImageLoader<'a> {
    pub fn new(gltf_info: &'a Document, files: &'a ResourceFiles, buffer_map: &'a BufferMap) -> (r:
        Self)
        ensures
            *r.gltf_info == *gltf_info,
            *r.files == *files,
            *r.buffer_map == *buffer_map,
    {
        ImageLoader { gltf_info, files, buffer_map }
    }

    /// Appends the encoded bytes of every image of the document, in order, to
    /// `buffer_out`, and records each in `image_out` as color data.
    pub fn prepare_images(&self, buffer_out: &mut Vec<u8>, image_out: &mut Vec<ImageData>) -> (r:
        Result<(), Error>)
        ensures
            r is Ok <==> forall|i: int|
                0 <= i < self.gltf_info.images@.len() ==> image_ok(
                    *self.gltf_info,
                    self.files@,
                    buffer_bytes(*self.buffer_map),
                    #[trigger] self.gltf_info.images@[i],
                ) is Some,
            r matches Err(e) ==> exists|i: int|
                0 <= i < self.gltf_info.images@.len() && image_failed(
                    e,
                    *self.gltf_info,
                    self.files@,
                    buffer_bytes(*self.buffer_map),
                    #[trigger] self.gltf_info.images@[i],
                ) && forall|j: int|
                    0 <= j < i ==> image_ok(
                        *self.gltf_info,
                        self.files@,
                        buffer_bytes(*self.buffer_map),
                        #[trigger] self.gltf_info.images@[j],
                    ) is Some,
            r is Ok ==> {
                let n = old(image_out)@.len();
                &&& final(image_out)@.len() == n + self.gltf_info.images@.len()
                &&& final(image_out)@.subrange(0, n as int) == old(image_out)@
                &&& images_laid_out(
                    final(image_out)@.subrange(n as int, final(image_out)@.len() as int),
                    old(buffer_out)@,
                    final(buffer_out)@,
                )
                &&& forall|i: int|
                    0 <= i < self.gltf_info.images@.len() ==> image_recorded(
                        #[trigger] final(image_out)@[n + i],
                        self.gltf_info.images@[i],
                        image_ok(
                            *self.gltf_info,
                            self.files@,
                            buffer_bytes(*self.buffer_map),
                            self.gltf_info.images@[i],
                        )->Some_0,
                        final(buffer_out)@,
                    )
            },
    {
        let ghost n = image_out@.len();
        let ghost buf0 = buffer_out@;
        let ghost doc = *self.gltf_info;
        let ghost files = self.files@;
        let ghost buffers = buffer_bytes(*self.buffer_map);
        let mut index: usize = 0;
        assert(buffer_out@.subrange(0, buf0.len() as int) =~= buf0);
        assert(image_out@.subrange(n as int, image_out@.len() as int).len() == 0);
        assert(image_out@.subrange(0, n as int) =~= image_out@);
        while index < self.gltf_info.images.len()
            invariant
                doc == *self.gltf_info,
                files == self.files@,
                buffers == buffer_bytes(*self.buffer_map),
                0 <= index <= doc.images@.len(),
                image_out@.len() == n + index,
                image_out@.subrange(0, n as int) == old(image_out)@,
                n == old(image_out)@.len(),
                buf0 == old(buffer_out)@,
                buffer_out@.len() >= buf0.len(),
                images_laid_out(
                    image_out@.subrange(n as int, image_out@.len() as int),
                    buf0,
                    buffer_out@,
                ),
                forall|i: int|
                    0 <= i < index ==> image_ok(doc, files, buffers, #[trigger] doc.images@[i]) is Some,
                forall|i: int|
                    0 <= i < index ==> image_recorded(
                        #[trigger] image_out@[n + i],
                        doc.images@[i],
                        image_ok(doc, files, buffers, doc.images@[i])->Some_0,
                        buffer_out@,
                    ),
            decreases doc.images@.len() - index,
        {
            let image = &self.gltf_info.images[index];
            let ghost prev_buf = buffer_out@;
            let ghost prev_img = image_out@;
            let range = match &image.uri {
                Some(uri) => {
                    let data = read_uri_data(uri.as_str(), self.files);
                    match data {
                        Ok(d) => append_bytes(&d, buffer_out),
                        Err(e) => {
                            return Err(e);
                        },
                    }
                },
                None => match image.buffer_view {
                    Some(v) => {
                        if v >= self.gltf_info.buffer_views.len() {
                            return Err(Error::FailedGetBuffer);
                        }
                        let view = &self.gltf_info.buffer_views[v];
                        match get_raw_data_via_buffer_view(
                            0,
                            view,
                            self.buffer_map,
                            None,
                            None,
                            buffer_out,
                        ) {
                            Ok(rg) => rg,
                            Err(e) => {
                                return Err(e);
                            },
                        }
                    },
                    None => {
                        return Err(Error::FailedGetBuffer);
                    },
                },
            };
            let mime = match &image.mime_type {
                Some(m) => m.clone(),
                None => String::from_str("image/png"),
            };
            let ghost bytes = image_ok(doc, files, buffers, doc.images@[index as int])->Some_0;
            assert(buffer_out@ == prev_buf + bytes);
            image_out.push(ImageData { range, mime, target_format: TargetFormat::Rgba8UnormSrgb });
            proof {
                assert forall|i: int| 0 <= i < index + 1 implies image_recorded(
                    #[trigger] image_out@[n + i],
                    doc.images@[i],
                    image_ok(doc, files, buffers, doc.images@[i])->Some_0,
                    buffer_out@,
                ) by {
                    if i < index {
                        let d = image_out@[n + i];
                        assert(d == prev_img[n + i]);
                        assert(buffer_out@.subrange(d.range.start as int, d.range.end as int)
                            =~= prev_buf.subrange(d.range.start as int, d.range.end as int));
                    } else {
                        assert(buffer_out@.subrange(range.start as int, range.end as int) =~= bytes);
                    }
                }
                let rec = image_out@.subrange(n as int, image_out@.len() as int);
                let prec = prev_img.subrange(n as int, prev_img.len() as int);
                assert(rec.subrange(0, index as int) =~= prec);
                assert forall|i: int| 0 <= i < rec.len() - 1 implies #[trigger] rec[i].range.end
                    == rec[i + 1].range.start by {
                    if i + 1 < index {
                        assert(rec[i] == prec[i]);
                        assert(rec[i + 1] == prec[i + 1]);
                    } else {
                        assert(rec[i] == prec[i]);
                        assert(prec.len() > 0 ==> prec.last().range.end == prev_buf.len());
                    }
                }
                assert(buffer_out@.subrange(0, buf0.len() as int) =~= prev_buf.subrange(0, buf0.len() as int));
                assert(image_out@.subrange(0, n as int) =~= prev_img.subrange(0, n as int));
            }
            index = index + 1;
        }
        Ok(())
    }

    /// Records slot `key` of a material in `mat_out`: the texture that
    /// `texture_info` refers to with `color_factor`, or, without a reference,
    /// no image and the same factor. A normal-map slot marks its image as
    /// linear, unless the image is a self-describing container.
    pub fn load_texture(
        &self,
        texture_info: &Option<TextureInfo>,
        color_factor: [u32; 4],
        key: MaterialKey,
        image_out: &mut Vec<ImageData>,
        mat_out: &mut Material,
    ) -> (r: Result<(), Error>)
        ensures
            match slot_data(*self.gltf_info, old(image_out)@.len() as int, *texture_info, color_factor) {
                Some(d) => {
                    &&& r is Ok
                    &&& final(mat_out)@ == old(mat_out)@.push((key, d))
                    &&& final(image_out)@ == if key == MaterialKey::Normal {
                        mark_linear(old(image_out)@, normal_image(*self.gltf_info, *texture_info))
                    } else {
                        old(image_out)@
                    }
                },
                None => {
                    &&& r == Err::<(), Error>(Error::MissingReference)
                    &&& final(mat_out)@ == old(mat_out)@
                    &&& final(image_out)@ == old(image_out)@
                },
            },
    {
        let tex_data = match texture_info {
            Some(info) => {
                if info.index >= self.gltf_info.textures.len() {
                    return Err(Error::MissingReference);
                }
                let texture = self.gltf_info.textures[info.index];
                match texture.source {
                    Some(id) => if id >= image_out.len() {
                        return Err(Error::MissingReference);
                    },
                    None => {},
                }
                match texture.sampler {
                    Some(s) => if s >= self.gltf_info.samplers.len() {
                        return Err(Error::MissingReference);
                    },
                    None => {},
                }
                if matches!(key, MaterialKey::Normal) {
                    match texture.source {
                        Some(id) => {
                            if !is_container(&image_out[id].mime) {
                                let range = image_out[id].range.start..image_out[id].range.end;
                                let mime = image_out[id].mime.clone();
                                image_out.set(
                                    id,
                                    ImageData { range, mime, target_format: TargetFormat::Rgba8Unorm },
                                );
                            }
                        },
                        None => {},
                    }
                }
                TextureData {
                    image_id: texture.source,
                    factor: color_factor,
                    tex_coord: info.tex_coord,
                    sampler: match texture.sampler {
                        Some(s) => s,
                        None => 0,
                    },
                }
            },
            None => TextureData { image_id: None, factor: color_factor, tex_coord: 0, sampler: 0 },
        };
        mat_out.push((key, tex_data));
        Ok(())
    }
}

} // verus!

verus! {

/// The metallic-roughness factor: roughness in the second component,
/// metallic in the third.
pub open spec fn metallic_roughness_factor(m: document::Material) -> [u32; 4] {
    [0u32, m.roughness_factor, m.metallic_factor, 0u32]
}

/// The slots of material `m`, in order: BaseColor, MetallicRoughness,
/// Normal, Occlusion; `None` where a reference dangles.
pub open spec fn material_slots(doc: Document, n_images: int, m: document::Material) -> Option<
    Seq<(MaterialKey, TextureData)>,
> {
    let base = slot_data(doc, n_images, m.base_color_texture, m.base_color_factor);
    let mr = slot_data(doc, n_images, m.metallic_roughness_texture, metallic_roughness_factor(m));
    let nm = slot_data(doc, n_images, m.normal_texture, [0u32, 0u32, 0u32, 0u32]);
    let oc = slot_data(doc, n_images, m.occlusion_texture, [0u32, 0u32, 0u32, 0u32]);
    if base is None || mr is None || nm is None || oc is None {
        None
    } else {
        Some(
            seq![
                (MaterialKey::BaseColor, base->Some_0),
                (MaterialKey::MetallicRoughness, mr->Some_0),
                (MaterialKey::Normal, nm->Some_0),
                (MaterialKey::Occlusion, oc->Some_0),
            ],
        )
    }
}

/// The image table after the normal maps of the first `k` materials have
/// marked their images as linear.
pub open spec fn images_after_materials(doc: Document, images: Seq<ImageData>, k: int) -> Seq<
    ImageData,
>
    decreases k,
{
    if k <= 0 {
        images
    } else {
        mark_linear(
            images_after_materials(doc, images, k - 1),
            normal_image(doc, doc.materials@[k - 1].normal_texture),
        )
    }
}

proof fn lemma_mark_linear_len(images: Seq<ImageData>, id: Option<usize>)
    ensures
        mark_linear(images, id).len() == images.len(),
{
}

proof fn lemma_images_after_len(doc: Document, images: Seq<ImageData>, k: int)
    ensures
        images_after_materials(doc, images, k).len() == images.len(),
    decreases k,
{
    if k > 0 {
        lemma_images_after_len(doc, images, k - 1);
        lemma_mark_linear_len(
            images_after_materials(doc, images, k - 1),
            normal_image(doc, doc.materials@[k - 1].normal_texture),
        );
    }
}

impl<'a> ImageLoader<'a> {
    /// Resolves the slots of material `mat`.
    pub fn load_material(&self, mat: &document::Material, image_out: &mut Vec<ImageData>) -> (r:
        Result<Material, Error>)
        ensures
            match material_slots(*self.gltf_info, old(image_out)@.len() as int, *mat) {
                Some(slots) => {
                    &&& r is Ok
                    &&& r->Ok_0@ == slots
                    &&& final(image_out)@ == mark_linear(
                        old(image_out)@,
                        normal_image(*self.gltf_info, mat.normal_texture),
                    )
                },
                None => r == Err::<Material, Error>(Error::MissingReference),
            },
    {
        let ghost n = image_out@.len();
        let ghost start = image_out@;
        let mut mat_out: Material = Vec::new();
        match self.load_texture(
            &mat.base_color_texture,
            mat.base_color_factor,
            MaterialKey::BaseColor,
            image_out,
            &mut mat_out,
        ) {
            Ok(()) => {},
            Err(e) => {
                return Err(e);
            },
        }
        match self.load_texture(
            &mat.metallic_roughness_texture,
            [0u32, mat.roughness_factor, mat.metallic_factor, 0u32],
            MaterialKey::MetallicRoughness,
            image_out,
            &mut mat_out,
        ) {
            Ok(()) => {},
            Err(e) => {
                return Err(e);
            },
        }
        assert(mat_out@ =~= seq![
            (MaterialKey::BaseColor, slot_data(*self.gltf_info, n as int, mat.base_color_texture, mat.base_color_factor)->Some_0),
            (MaterialKey::MetallicRoughness, slot_data(*self.gltf_info, n as int, mat.metallic_roughness_texture, metallic_roughness_factor(*mat))->Some_0),
        ]);
        match self.load_texture(
            &mat.normal_texture,
            [0u32, 0u32, 0u32, 0u32],
            MaterialKey::Normal,
            image_out,
            &mut mat_out,
        ) {
            Ok(()) => {},
            Err(e) => {
                return Err(e);
            },
        }
        proof {
            lemma_mark_linear_len(start, normal_image(*self.gltf_info, mat.normal_texture));
        }
        match self.load_texture(
            &mat.occlusion_texture,
            [0u32, 0u32, 0u32, 0u32],
            MaterialKey::Occlusion,
            image_out,
            &mut mat_out,
        ) {
            Ok(()) => {},
            Err(e) => {
                return Err(e);
            },
        }
        Ok(mat_out)
    }

    /// Resolves every material of the document, in order, into `materials_out`.
    pub fn load_materials(&self, image_out: &mut Vec<ImageData>, materials_out: &mut Vec<Material>) -> (r:
        Result<(), Error>)
        ensures
            r is Ok <==> forall|i: int|
                0 <= i < self.gltf_info.materials@.len() ==> material_slots(
                    *self.gltf_info,
                    old(image_out)@.len() as int,
                    #[trigger] self.gltf_info.materials@[i],
                ) is Some,
            r is Err ==> r == Err::<(), Error>(Error::MissingReference),
            r is Ok ==> {
                &&& final(materials_out)@.len() == old(materials_out)@.len()
                    + self.gltf_info.materials@.len()
                &&& forall|i: int|
                    0 <= i < old(materials_out)@.len() ==> #[trigger] final(materials_out)@[i]
                        == old(materials_out)@[i]
                &&& forall|i: int|
                    0 <= i < self.gltf_info.materials@.len() ==> Some(
                        #[trigger] final(materials_out)@[old(materials_out)@.len() + i]@,
                    ) == material_slots(
                        *self.gltf_info,
                        old(image_out)@.len() as int,
                        self.gltf_info.materials@[i],
                    )
                &&& final(image_out)@ == images_after_materials(
                    *self.gltf_info,
                    old(image_out)@,
                    self.gltf_info.materials@.len() as int,
                )
            },
    {
        let ghost n = image_out@.len();
        let ghost m0 = materials_out@.len();
        let ghost doc = *self.gltf_info;
        let mut index: usize = 0;
        while index < self.gltf_info.materials.len()
            invariant
                doc == *self.gltf_info,
                0 <= index <= doc.materials@.len(),
                image_out@ == images_after_materials(doc, old(image_out)@, index as int),
                n == old(image_out)@.len(),
                m0 == old(materials_out)@.len(),
                materials_out@.len() == m0 + index,
                forall|i: int|
                    0 <= i < m0 ==> #[trigger] materials_out@[i] == old(materials_out)@[i],
                forall|i: int|
                    0 <= i < index ==> material_slots(doc, n as int, #[trigger] doc.materials@[i]) is Some,
                forall|i: int|
                    0 <= i < index ==> Some(#[trigger] materials_out@[m0 + i]@) == material_slots(
                        doc,
                        n as int,
                        doc.materials@[i],
                    ),
            decreases doc.materials@.len() - index,
        {
            proof {
                lemma_images_after_len(doc, old(image_out)@, index as int);
            }
            let mat = &self.gltf_info.materials[index];
            let ghost prev = materials_out@;
            match self.load_material(mat, image_out) {
                Ok(m) => {
                    materials_out.push(m);
                },
                Err(e) => {
                    return Err(e);
                },
            }
            proof {
                assert forall|i: int| 0 <= i < index + 1 implies Some(
                    #[trigger] materials_out@[m0 + i]@,
                ) == material_slots(doc, n as int, doc.materials@[i]) by {
                    if i < index {
                        assert(materials_out@[m0 + i] == prev[m0 + i]);
                    }
                }
            }
            index = index + 1;
        }
        Ok(())
    }
}

} // verus!
