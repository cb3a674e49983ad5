//! What holds of reading a texture dictionary that was written.

use crate::bytes::{
    byte_range, law_le_round_trip, le_at, le_bytes, lemma_le_bytes_len, lemma_le_value_bound,
    overwrite,
};
use crate::resource::{law_capacity_holds, resource_size, RSC7_MAGIC};
use crate::texture_format::law_format_code_round_trip;
use crate::ytd_io::{
    described, file_header, fitted, graphics_of, graphics_upto, hash_at, hash_bytes, in_graphics,
    in_system, is_rebuilt, lemma_graphics_grow, lemma_tags, new_graphics, new_graphics_flags,
    parsed_model, part, pixel_size, pointer_bytes, resolved, stride_of, system_of, system_upto,
    text_at, texture_at, textures_in, unpacked, until_zero, written_pixels, PatchModel,
    TextureModel, YtdError, YtdModel, DICTIONARY_LEN, GRAPHICS_TAG, RSC_HEADER_LEN, SYSTEM_TAG,
    TEXTURE_STRUCT_LEN,
};
use vstd::prelude::*;

verus! {

/// Whether the bytes from `a` up to `b` lie outside all texture descriptions.
pub open spec fn apart(textures: Seq<TextureModel>, a: int, b: int) -> bool {
    forall|i: int|
        0 <= i < textures.len() ==> b <= (#[trigger] textures[i]).struct_offset
            || textures[i].struct_offset + TEXTURE_STRUCT_LEN <= a
}

/// Whether no texture description overlaps another one, the dictionary's own
/// description, the lists of addresses and hashes or a texture's name, and
/// the lists do not lie in the graphics section.
pub open spec fn is_separate(model: YtdModel) -> bool {
    let system = model.system;
    let pointers = le_at(system, 0x30, 8) as u64;
    let hashes = le_at(system, 0x20, 8) as u64;
    &&& apart(model.textures, 0, DICTIONARY_LEN as int)
    &&& !in_graphics(pointers)
    &&& apart(
        model.textures,
        pointers - SYSTEM_TAG,
        pointers - SYSTEM_TAG + 8 * le_at(system, 0x38, 2),
    )
    &&& !in_graphics(hashes)
    &&& apart(
        model.textures,
        hashes - SYSTEM_TAG,
        hashes - SYSTEM_TAG + 4 * le_at(system, 0x28, 2),
    )
    &&& forall|i: int|
        0 <= i < model.textures.len() ==> name_is_apart(
            model,
            (#[trigger] model.textures[i]).struct_offset as int,
        )
    &&& forall|i: int, j: int|
        0 <= i < j < model.textures.len() ==> {
            let a = (#[trigger] model.textures[i]).struct_offset;
            let b = (#[trigger] model.textures[j]).struct_offset;
            a + TEXTURE_STRUCT_LEN <= b || b + TEXTURE_STRUCT_LEN <= a
        }
}

/// Whether the name of the texture described at `off` lies, with the byte that
/// ends it, outside all texture descriptions.
pub open spec fn name_is_apart(model: YtdModel, off: int) -> bool {
    let va = le_at(model.system, off + 0x28, 8) as u64;
    let start = va - SYSTEM_TAG;
    in_system(va) && start <= model.system.len() ==> apart(
        model.textures,
        start,
        start + until_zero(model.system.skip(start)).len() + 1,
    )
}

/// The system section after one texture was written.
pub open spec fn after_texture(
    system: Seq<u8>,
    off: int,
    patch: Option<PatchModel>,
    start: nat,
) -> Seq<u8> {
    overwrite(
        match patch {
            Some(p) => described(system, off, p),
            None => system,
        },
        off + 0x70,
        le_bytes((GRAPHICS_TAG + start) as nat, 8),
    )
}

proof fn lemma_after_texture_outside(
    system: Seq<u8>,
    off: int,
    patch: Option<PatchModel>,
    start: nat,
    k: int,
)
    requires
        0 <= k < system.len(),
        k < off || off + TEXTURE_STRUCT_LEN <= k,
    ensures
        after_texture(system, off, patch, start)[k] == system[k],
{
    lemma_le_bytes_len((GRAPHICS_TAG + start) as nat, 8);
    if let Some(p) = patch {
        lemma_le_bytes_len(p.width as nat, 2);
        lemma_le_bytes_len(p.height as nat, 2);
        lemma_le_bytes_len(stride_of(p.width, p.format) as nat, 2);
        lemma_le_bytes_len(p.format.spec_code() as nat, 4);
    }
}

proof fn lemma_byte_range()
    ensures
        byte_range(2) == 0x1_0000,
        byte_range(4) == 0x1_0000_0000,
        byte_range(8) == 0x1_0000_0000_0000_0000,
{
    reveal_with_fuel(byte_range, 9);
}

/// What is read from the description of a texture that was just written.
proof fn lemma_after_texture_fields(
    system: Seq<u8>,
    off: int,
    patch: Option<PatchModel>,
    start: nat,
)
    requires
        0 <= off,
        off + TEXTURE_STRUCT_LEN <= system.len(),
        GRAPHICS_TAG + start <= u64::MAX,
    ensures
        ({
            let s = after_texture(system, off, patch, start);
            &&& s.len() == system.len()
            &&& le_at(s, off + 0x28, 8) == le_at(system, off + 0x28, 8)
            &&& le_at(s, off + 0x54, 2) == le_at(system, off + 0x54, 2)
            &&& le_at(s, off + 0x70, 8) == GRAPHICS_TAG + start
            &&& match patch {
                Some(p) => {
                    &&& le_at(s, off + 0x50, 2) == p.width
                    &&& le_at(s, off + 0x52, 2) == p.height
                    &&& le_at(s, off + 0x56, 2) == stride_of(p.width, p.format)
                    &&& le_at(s, off + 0x58, 4) == p.format.spec_code()
                    &&& s[off + 0x5D] == p.levels
                },
                None => {
                    &&& le_at(s, off + 0x50, 2) == le_at(system, off + 0x50, 2)
                    &&& le_at(s, off + 0x52, 2) == le_at(system, off + 0x52, 2)
                    &&& le_at(s, off + 0x56, 2) == le_at(system, off + 0x56, 2)
                    &&& le_at(s, off + 0x58, 4) == le_at(system, off + 0x58, 4)
                    &&& s[off + 0x5D] == system[off + 0x5D]
                },
            }
        }),
{
    lemma_byte_range();
    let last = le_bytes((GRAPHICS_TAG + start) as nat, 8);
    lemma_le_bytes_len((GRAPHICS_TAG + start) as nat, 8);
    let s = after_texture(system, off, patch, start);
    match patch {
        Some(p) => {
            let stride = stride_of(p.width, p.format);
            lemma_le_bytes_len(p.width as nat, 2);
            lemma_le_bytes_len(p.height as nat, 2);
            lemma_le_bytes_len(stride as nat, 2);
            lemma_le_bytes_len(p.format.spec_code() as nat, 4);
            law_le_round_trip(p.width as nat, 2);
            law_le_round_trip(p.height as nat, 2);
            law_le_round_trip(stride as nat, 2);
            law_le_round_trip(p.format.spec_code() as nat, 4);
            assert(s.subrange(off + 0x50, off + 0x52) =~= le_bytes(p.width as nat, 2));
            assert(s.subrange(off + 0x52, off + 0x54) =~= le_bytes(p.height as nat, 2));
            assert(s.subrange(off + 0x56, off + 0x58) =~= le_bytes(stride as nat, 2));
            assert(s.subrange(off + 0x58, off + 0x5C) =~= le_bytes(
                p.format.spec_code() as nat,
                4,
            ));
        },
        None => {
            assert(s.subrange(off + 0x50, off + 0x52) =~= system.subrange(off + 0x50, off + 0x52));
            assert(s.subrange(off + 0x52, off + 0x54) =~= system.subrange(off + 0x52, off + 0x54));
            assert(s.subrange(off + 0x56, off + 0x58) =~= system.subrange(off + 0x56, off + 0x58));
            assert(s.subrange(off + 0x58, off + 0x5C) =~= system.subrange(off + 0x58, off + 0x5C));
        },
    }
    law_le_round_trip((GRAPHICS_TAG + start) as nat, 8);
    assert(s.subrange(off + 0x28, off + 0x30) =~= system.subrange(off + 0x28, off + 0x30));
    assert(s.subrange(off + 0x54, off + 0x56) =~= system.subrange(off + 0x54, off + 0x56));
    assert(s.subrange(off + 0x70, off + 0x78) =~= last);
}

proof fn lemma_system_upto_outside(
    model: YtdModel,
    patches: Seq<Option<PatchModel>>,
    n: nat,
    k: int,
)
    requires
        n <= model.textures.len(),
        0 <= k < model.system.len(),
        forall|i: int|
            0 <= i < n ==> k < (#[trigger] model.textures[i]).struct_offset
                || model.textures[i].struct_offset + TEXTURE_STRUCT_LEN <= k,
    ensures
        system_upto(model, patches, n).len() == model.system.len(),
        system_upto(model, patches, n)[k] == model.system[k],
    decreases n,
{
    if n > 0 {
        let i = n - 1;
        lemma_system_upto_outside(model, patches, i as nat, k);
        let before = system_upto(model, patches, i as nat);
        let off = model.textures[i].struct_offset as int;
        let start = graphics_upto(model.textures, patches, i as nat).len();
        lemma_after_texture_outside(before, off, patches[i], start, k);
    }
}

proof fn lemma_system_upto_len(model: YtdModel, patches: Seq<Option<PatchModel>>, n: nat)
    ensures
        system_upto(model, patches, n).len() == model.system.len(),
    decreases n,
{
    if n > 0 {
        lemma_system_upto_len(model, patches, (n - 1) as nat);
    }
}

/// A byte of a texture's description is, in the end, what writing that texture
/// made of it.
proof fn lemma_system_upto_inside(
    model: YtdModel,
    patches: Seq<Option<PatchModel>>,
    n: nat,
    i: int,
    k: int,
)
    requires
        0 <= i < n <= model.textures.len(),
        model.wf(),
        is_separate(model),
        model.textures[i].struct_offset <= k < model.textures[i].struct_offset
            + TEXTURE_STRUCT_LEN,
    ensures
        system_upto(model, patches, n)[k] == after_texture(
            model.system,
            model.textures[i].struct_offset as int,
            patches[i],
            graphics_upto(model.textures, patches, i as nat).len(),
        )[k],
    decreases n,
{
    let off = model.textures[i].struct_offset as int;
    lemma_system_upto_len(model, patches, (n - 1) as nat);
    if n - 1 == i {
        let before = system_upto(model, patches, i as nat);
        let start = graphics_upto(model.textures, patches, i as nat).len();
        assert forall|m: int| off <= m < off + TEXTURE_STRUCT_LEN implies before[m]
            == model.system[m] by {
            assert forall|j: int| 0 <= j < i implies m < (
            #[trigger] model.textures[j]).struct_offset || model.textures[j].struct_offset
                + TEXTURE_STRUCT_LEN <= m by {
                assert(model.textures[i].struct_offset == off);
            }
            lemma_system_upto_outside(model, patches, i as nat, m);
        }
        lemma_after_texture_same(before, model.system, off, patches[i], start, k);
    } else {
        lemma_system_upto_inside(model, patches, (n - 1) as nat, i, k);
        let before = system_upto(model, patches, (n - 1) as nat);
        let other = model.textures[n - 1].struct_offset as int;
        let start = graphics_upto(model.textures, patches, (n - 1) as nat).len();
        assert(model.textures[i].struct_offset == off);
        lemma_after_texture_outside(before, other, patches[n - 1], start, k);
    }
}

proof fn lemma_after_texture_same(
    a: Seq<u8>,
    b: Seq<u8>,
    off: int,
    patch: Option<PatchModel>,
    start: nat,
    k: int,
)
    requires
        a.len() == b.len(),
        0 <= off <= k < off + TEXTURE_STRUCT_LEN,
        off + TEXTURE_STRUCT_LEN <= a.len(),
        a[k] == b[k],
    ensures
        after_texture(a, off, patch, start)[k] == after_texture(b, off, patch, start)[k],
{
    lemma_le_bytes_len((GRAPHICS_TAG + start) as nat, 8);
    if let Some(p) = patch {
        lemma_le_bytes_len(p.width as nat, 2);
        lemma_le_bytes_len(p.height as nat, 2);
        lemma_le_bytes_len(stride_of(p.width, p.format) as nat, 2);
        lemma_le_bytes_len(p.format.spec_code() as nat, 4);
    }
}

proof fn lemma_until_zero_same(a: Seq<u8>, b: Seq<u8>)
    requires
        a.len() == b.len(),
        forall|k: int| 0 <= k <= until_zero(a).len() && k < a.len() ==> a[k] == b[k],
    ensures
        until_zero(a) == until_zero(b),
    decreases a.len(),
{
    if a.len() > 0 {
        assert(a[0] == b[0]);
        if a[0] != 0 {
            let ta = a.drop_first();
            let tb = b.drop_first();
            assert forall|k: int| 0 <= k <= until_zero(ta).len() && k < ta.len() implies ta[k]
                == tb[k] by {
                assert(a[k + 1] == b[k + 1]);
            }
            lemma_until_zero_same(ta, tb);
        }
    }
}

proof fn lemma_until_zero_len(s: Seq<u8>)
    ensures
        until_zero(s).len() <= s.len(),
    decreases s.len(),
{
    if s.len() > 0 {
        lemma_until_zero_len(s.drop_first());
    }
}

/// The graphics section of a rebuilt dictionary.
pub open spec fn stored_graphics(model: YtdModel, patches: Seq<Option<PatchModel>>) -> Seq<u8> {
    fitted(new_graphics(model, patches), resource_size(new_graphics_flags(model, patches)))
}

/// The texture in place `j` as it is read from the rebuilt dictionary: the
/// patched fields are those of the patch, the others are kept, and the pixels
/// are as many bytes as the fields ask for, from where the texture's own
/// pixels start; none where there are fewer.
pub open spec fn reread(
    model: YtdModel,
    patches: Seq<Option<PatchModel>>,
    j: int,
) -> TextureModel {
    let t = model.textures[j];
    let start = graphics_upto(model.textures, patches, j as nat).len();
    let fields = match patches[j] {
        Some(p) => TextureModel {
            width: p.width,
            height: p.height,
            format: p.format,
            levels: p.levels,
            stride: stride_of(p.width, p.format),
            ..t
        },
        None => t,
    };
    let size = pixel_size((fields.stride * fields.height) as nat, fields.levels as nat);
    TextureModel {
        pixel_data: if size > 0 {
            match part(stored_graphics(model, patches), start as int, size as int) {
                Some(s) => s,
                None => Seq::empty(),
            }
        } else {
            Seq::empty()
        },
        ..fields
    }
}

proof fn lemma_le_at_same(a: Seq<u8>, b: Seq<u8>, off: int, n: int)
    requires
        0 <= off,
        0 <= n,
        off + n <= a.len(),
        off + n <= b.len(),
        forall|k: int| off <= k < off + n ==> a[k] == b[k],
    ensures
        le_at(a, off, n) == le_at(b, off, n),
{
    assert(a.subrange(off, off + n) =~= b.subrange(off, off + n));
}

/// Bytes outside all descriptions are kept.
proof fn lemma_apart_kept(model: YtdModel, patches: Seq<Option<PatchModel>>, a: int, b: int)
    requires
        0 <= a <= b <= model.system.len(),
        apart(model.textures, a, b),
    ensures
        ({
            let system = system_upto(model, patches, model.textures.len());
            &&& system.len() == model.system.len()
            &&& forall|k: int| a <= k < b ==> system[k] == model.system[k]
            &&& system.subrange(a, b) == model.system.subrange(a, b)
        }),
{
    let system = system_upto(model, patches, model.textures.len());
    lemma_system_upto_len(model, patches, model.textures.len());
    assert forall|k: int| a <= k < b implies system[k] == model.system[k] by {
        lemma_system_upto_outside(model, patches, model.textures.len(), k);
    }
    assert(system.subrange(a, b) =~= model.system.subrange(a, b));
}

/// The address that the pixels of a texture are written to.
pub open spec fn pixel_address(
    model: YtdModel,
    patches: Seq<Option<PatchModel>>,
    j: int,
) -> u64 {
    (GRAPHICS_TAG + graphics_upto(model.textures, patches, j as nat).len()) as u64
}

/// Whether all pixels can be addressed: there are no more than the flags of a
/// section can describe, and every texture's address carries the graphics tag.
pub open spec fn is_addressable(model: YtdModel, patches: Seq<Option<PatchModel>>) -> bool {
    &&& new_graphics(model, patches).len() <= 127 * 0x1000_0000
    &&& forall|j: int|
        0 <= j < model.textures.len() ==> in_graphics(#[trigger] pixel_address(model, patches, j))
}

/// Where there are less than 512 MiB of pixels, all can be addressed.
pub proof fn law_small_is_addressable(model: YtdModel, patches: Seq<Option<PatchModel>>)
    requires
        patches.len() == model.textures.len(),
        new_graphics(model, patches).len() < 0x2000_0000,
    ensures
        is_addressable(model, patches),
{
    assert forall|j: int| 0 <= j < model.textures.len() implies in_graphics(
        #[trigger] pixel_address(model, patches, j),
    ) by {
        lemma_graphics_grow(model.textures, patches, j as nat, model.textures.len());
        let low = graphics_upto(model.textures, patches, j as nat).len() as u64;
        assert((0x6000_0000u64 + low) as u64 & 0x6000_0000u64 == 0x6000_0000u64) by (bit_vector)
            requires
                low < 0x2000_0000u64,
        ;
    }
}

proof fn lemma_reread_texture(
    model: YtdModel,
    patches: Seq<Option<PatchModel>>,
    graphics: Seq<u8>,
    name_hash: u32,
    j: int,
)
    requires
        model.wf(),
        is_separate(model),
        0 <= j < model.textures.len(),
        patches.len() == model.textures.len(),
        is_addressable(model, patches),
        model.textures[j] == texture_at(
            model.system,
            graphics,
            name_hash,
            model.textures[j].struct_offset as int,
        ),
    ensures
        texture_at(
            system_upto(model, patches, model.textures.len()),
            stored_graphics(model, patches),
            name_hash,
            model.textures[j].struct_offset as int,
        ) == reread(model, patches, j),
{
    let t = model.textures[j];
    let off = t.struct_offset as int;
    let start = graphics_upto(model.textures, patches, j as nat).len();
    let system = system_upto(model, patches, model.textures.len());
    let again = after_texture(model.system, off, patches[j], start);
    lemma_graphics_grow(model.textures, patches, j as nat, model.textures.len());
    lemma_after_texture_fields(model.system, off, patches[j], start);
    lemma_system_upto_len(model, patches, model.textures.len());
    assert forall|k: int| off <= k < off + TEXTURE_STRUCT_LEN implies system[k] == again[k] by {
        lemma_system_upto_inside(model, patches, model.textures.len(), j, k);
    }
    lemma_le_at_same(system, again, off + 0x28, 8);
    lemma_le_at_same(system, again, off + 0x50, 2);
    lemma_le_at_same(system, again, off + 0x52, 2);
    lemma_le_at_same(system, again, off + 0x54, 2);
    lemma_le_at_same(system, again, off + 0x56, 2);
    lemma_le_at_same(system, again, off + 0x58, 4);
    lemma_le_at_same(system, again, off + 0x70, 8);
    if let Some(p) = patches[j] {
        law_format_code_round_trip(p.format);
    }
    // The name.
    let va = le_at(model.system, off + 0x28, 8) as u64;
    assert(text_at(system, va) == text_at(model.system, va)) by {
        if in_system(va) && va - SYSTEM_TAG <= model.system.len() {
            lemma_tags(va);
            let from = va - SYSTEM_TAG;
            let name = until_zero(model.system.skip(from));
            lemma_until_zero_len(model.system.skip(from));
            let to = if from + name.len() + 1 <= model.system.len() {
                from + name.len() + 1
            } else {
                model.system.len() as int
            };
            assert(name_is_apart(model, off)) by {
                assert(model.textures[j].struct_offset == off);
            }
            assert(apart(model.textures, from, from + name.len() + 1));
            assert(apart(model.textures, from, to));
            lemma_apart_kept(model, patches, from, to);
            assert forall|k: int|
                0 <= k <= name.len() && k < model.system.skip(from).len() implies model.system.skip(
                from,
            )[k] == system.skip(from)[k] by {
                assert(system[from + k] == model.system[from + k]);
            }
            lemma_until_zero_same(model.system.skip(from), system.skip(from));
        }
    }
    // The pixels.
    assert(in_graphics(pixel_address(model, patches, j)));
    lemma_byte_range();
    lemma_le_value_bound(model.system.subrange(off + 0x52, off + 0x54));
    lemma_le_value_bound(model.system.subrange(off + 0x56, off + 0x58));
    assert(texture_at(system, stored_graphics(model, patches), name_hash, off) =~= reread(
        model,
        patches,
        j,
    ));
}

proof fn lemma_textures_in_prefix(
    system: Seq<u8>,
    graphics: Seq<u8>,
    hashes: Option<Seq<u8>>,
    pointers: Seq<u8>,
    n: nat,
    m: nat,
)
    requires
        n <= m,
    ensures
        textures_in(system, graphics, hashes, pointers, n).len() <= textures_in(
            system,
            graphics,
            hashes,
            pointers,
            m,
        ).len(),
        textures_in(system, graphics, hashes, pointers, n).len() <= n,
        forall|k: int|
            0 <= k < textures_in(system, graphics, hashes, pointers, n).len() ==> textures_in(
                system,
                graphics,
                hashes,
                pointers,
                m,
            )[k] == textures_in(system, graphics, hashes, pointers, n)[k],
    decreases m, n,
{
    if n < m {
        lemma_textures_in_prefix(system, graphics, hashes, pointers, n, (m - 1) as nat);
    } else if n > 0 {
        lemma_textures_in_prefix(
            system,
            graphics,
            hashes,
            pointers,
            (n - 1) as nat,
            (n - 1) as nat,
        );
    }
}

/// The first `n` places of the list give the same textures again, each as
/// `reread` says.
proof fn lemma_reread_textures(
    model: YtdModel,
    patches: Seq<Option<PatchModel>>,
    graphics: Seq<u8>,
    hashes: Option<Seq<u8>>,
    pointers: Seq<u8>,
    n: nat,
    total: nat,
)
    requires
        model.wf(),
        is_separate(model),
        n <= total,
        patches.len() == model.textures.len(),
        is_addressable(model, patches),
        model.textures == textures_in(model.system, graphics, hashes, pointers, total),
    ensures
        ({
            let before = textures_in(model.system, graphics, hashes, pointers, n);
            let again = textures_in(
                system_upto(model, patches, model.textures.len()),
                stored_graphics(model, patches),
                hashes,
                pointers,
                n,
            );
            &&& again.len() == before.len()
            &&& forall|j: int|
                0 <= j < again.len() ==> #[trigger] again[j] == reread(model, patches, j)
        }),
    decreases n,
{
    if n > 0 {
        let i = n - 1;
        lemma_reread_textures(model, patches, graphics, hashes, pointers, i as nat, total);
        lemma_system_upto_len(model, patches, model.textures.len());
        lemma_textures_in_prefix(model.system, graphics, hashes, pointers, n, total);
        let before = textures_in(model.system, graphics, hashes, pointers, i as nat);
        let here = textures_in(model.system, graphics, hashes, pointers, n);
        let va = le_at(pointers, 8 * i, 8) as u64;
        lemma_tags(va);
        if let Some(off) = crate::ytd_io::description_offset(model.system, va) {
            let j = before.len() as int;
            assert(here[j] == texture_at(model.system, graphics, hash_at(hashes, i), off));
            assert(model.textures[j] == here[j]);
            lemma_reread_texture(model, patches, graphics, hash_at(hashes, i), j);
        }
    }
}

/// A dictionary that was rebuilt can be read again, and holds the same
/// textures in the same order, each as `reread` says: patched fields are those
/// of the patch, and everything else is as it was. This takes descriptions
/// that do not overlap anything else that is read, and pixels that can be
/// addressed.
pub proof fn law_rebuilt_is_read_back(
    data: Seq<u8>,
    model: YtdModel,
    patches: Seq<Option<PatchModel>>,
    file: Seq<u8>,
)
    requires
        parsed_model(data) == Ok::<YtdModel, YtdError>(model),
        model.wf(),
        is_separate(model),
        patches.len() == model.textures.len(),
        is_addressable(model, patches),
        is_rebuilt(file, model, patches),
    ensures
        parsed_model(file) is Ok,
        ({
            let again = parsed_model(file)->Ok_0;
            &&& again.textures.len() == model.textures.len()
            &&& forall|j: int|
                0 <= j < again.textures.len() ==> #[trigger] again.textures[j] == reread(
                    model,
                    patches,
                    j,
                )
            &&& again.sys_flags == model.sys_flags
            &&& again.gfx_version_nibble == model.gfx_version_nibble
            &&& again.system.len() == model.system.len()
        }),
{
    let gfx_flags = new_graphics_flags(model, patches);
    let system = system_upto(model, patches, model.textures.len());
    let stored = stored_graphics(model, patches);
    let header = file_header(model.sys_flags, gfx_flags);
    lemma_system_upto_len(model, patches, model.textures.len());
    lemma_header_fields(file, model.sys_flags, gfx_flags);
    law_capacity_holds(new_graphics(model, patches).len(), model.gfx_version_nibble);
    let body = file.skip(RSC_HEADER_LEN as int);
    assert(unpacked(body) == system + stored);
    assert(system_of(file) =~= system);
    assert(graphics_of(file) =~= stored);
    // The dictionary's own description and both lists are where they were.
    lemma_apart_kept(model, patches, 0, DICTIONARY_LEN as int);
    lemma_le_at_same(system, model.system, 0x20, 8);
    lemma_le_at_same(system, model.system, 0x28, 2);
    lemma_le_at_same(system, model.system, 0x30, 8);
    lemma_le_at_same(system, model.system, 0x38, 2);
    let graphics = graphics_of(data);
    assert(hash_bytes(system, stored) == hash_bytes(model.system, graphics)) by {
        let va = le_at(model.system, 0x20, 8) as u64;
        lemma_list_kept(model, patches, graphics, va, 4 * le_at(model.system, 0x28, 2) as int);
    }
    assert(pointer_bytes(system, stored) == pointer_bytes(model.system, graphics)) by {
        let va = le_at(model.system, 0x30, 8) as u64;
        lemma_list_kept(model, patches, graphics, va, 8 * le_at(model.system, 0x38, 2) as int);
    }
    let total = le_at(model.system, 0x38, 2);
    if total > 0 {
        lemma_reread_textures(
            model,
            patches,
            graphics,
            hash_bytes(model.system, graphics),
            pointer_bytes(model.system, graphics)->0,
            total,
            total,
        );
    }
}

proof fn lemma_list_kept(
    model: YtdModel,
    patches: Seq<Option<PatchModel>>,
    graphics: Seq<u8>,
    va: u64,
    len: int,
)
    requires
        0 <= len,
        !in_graphics(va),
        apart(model.textures, va - SYSTEM_TAG, va - SYSTEM_TAG + len),
    ensures
        resolved(
            system_upto(model, patches, model.textures.len()),
            stored_graphics(model, patches),
            va,
            len,
        ) == resolved(model.system, graphics, va, len),
{
    lemma_tags(va);
    lemma_system_upto_len(model, patches, model.textures.len());
    if in_system(va) && va - SYSTEM_TAG + len <= model.system.len() {
        lemma_apart_kept(model, patches, va - SYSTEM_TAG, va - SYSTEM_TAG + len);
    }
}

proof fn lemma_header_fields(file: Seq<u8>, sys_flags: u32, gfx_flags: u32)
    requires
        file.len() >= RSC_HEADER_LEN,
        file.take(RSC_HEADER_LEN as int) == file_header(sys_flags, gfx_flags),
    ensures
        le_at(file, 0, 4) == RSC7_MAGIC,
        le_at(file, 8, 4) == sys_flags,
        le_at(file, 12, 4) == gfx_flags,
{
    lemma_byte_range();
    let version = crate::resource::resource_version(sys_flags, gfx_flags);
    lemma_le_bytes_len(RSC7_MAGIC as nat, 4);
    lemma_le_bytes_len(version as nat, 4);
    lemma_le_bytes_len(sys_flags as nat, 4);
    lemma_le_bytes_len(gfx_flags as nat, 4);
    let head = file.take(RSC_HEADER_LEN as int);
    assert(file.subrange(0, 4) =~= head.subrange(0, 4));
    assert(file.subrange(8, 12) =~= head.subrange(8, 12));
    assert(file.subrange(12, 16) =~= head.subrange(12, 16));
    assert(head.subrange(0, 4) =~= le_bytes(RSC7_MAGIC as nat, 4));
    assert(head.subrange(8, 12) =~= le_bytes(sys_flags as nat, 4));
    assert(head.subrange(12, 16) =~= le_bytes(gfx_flags as nat, 4));
    law_le_round_trip(RSC7_MAGIC as nat, 4);
    law_le_round_trip(sys_flags as nat, 4);
    law_le_round_trip(gfx_flags as nat, 4);
}

/// Where a texture is written with exactly as many pixels as its fields ask
/// for, these pixels are read back.
pub proof fn law_pixels_are_read_back(
    model: YtdModel,
    patches: Seq<Option<PatchModel>>,
    j: int,
)
    requires
        model.wf(),
        0 <= j < model.textures.len(),
        patches.len() == model.textures.len(),
        is_addressable(model, patches),
        ({
            let t = reread(model, patches, j);
            written_pixels(model.textures[j], patches[j]).len() == pixel_size(
                (t.stride * t.height) as nat,
                t.levels as nat,
            )
        }),
    ensures
        reread(model, patches, j).pixel_data == written_pixels(model.textures[j], patches[j]),
{
    let pixels = written_pixels(model.textures[j], patches[j]);
    let start = graphics_upto(model.textures, patches, j as nat).len() as int;
    let upto = graphics_upto(model.textures, patches, (j + 1) as nat);
    let all = new_graphics(model, patches);
    lemma_graphics_grow(model.textures, patches, (j + 1) as nat, model.textures.len());
    law_capacity_holds(all.len(), model.gfx_version_nibble);
    assert(upto.subrange(start, start + pixels.len()) =~= pixels);
    assert(all.subrange(start, start + pixels.len()) =~= upto.subrange(
        start,
        start + pixels.len(),
    )) by {
        assert forall|k: int| 0 <= k < upto.len() implies all[k] == upto[k] by {
            assert(all.take(upto.len() as int)[k] == upto[k]);
        }
    }
    let stored = stored_graphics(model, patches);
    assert(stored.subrange(start, start + pixels.len()) =~= all.subrange(
        start,
        start + pixels.len(),
    ));
    if pixels.len() == 0 {
        assert(pixels =~= Seq::<u8>::empty());
    }
}

/// No patches.
pub open spec fn unpatched(model: YtdModel) -> Seq<Option<PatchModel>> {
    Seq::new(model.textures.len(), |j: int| Option::<PatchModel>::None)
}

/// A dictionary that was read and is rebuilt without patches is read back with
/// the same textures, pixels among them. This takes what
/// `law_rebuilt_is_read_back` takes, and textures with as many pixels as their
/// fields ask for.
pub proof fn law_unpatched_is_read_back(data: Seq<u8>, model: YtdModel, file: Seq<u8>)
    requires
        parsed_model(data) == Ok::<YtdModel, YtdError>(model),
        model.wf(),
        is_separate(model),
        is_addressable(model, unpatched(model)),
        forall|j: int|
            0 <= j < model.textures.len() ==> (#[trigger] model.textures[j]).pixel_data.len()
                == pixel_size(
                (model.textures[j].stride * model.textures[j].height) as nat,
                model.textures[j].levels as nat,
            ),
        is_rebuilt(file, model, unpatched(model)),
    ensures
        parsed_model(file) is Ok,
        parsed_model(file)->Ok_0.textures == model.textures,
{
    let patches = unpatched(model);
    law_rebuilt_is_read_back(data, model, patches, file);
    let again = parsed_model(file)->Ok_0;
    assert forall|j: int| 0 <= j < model.textures.len() implies again.textures[j]
        == model.textures[j] by {
        assert(again.textures[j] == reread(model, patches, j));
        law_pixels_are_read_back(model, patches, j);
    }
    assert(again.textures =~= model.textures);
}

/// A dictionary never gives more textures than its own description counts.
pub proof fn law_textures_are_counted(data: Seq<u8>)
    requires
        parsed_model(data) is Ok,
    ensures
        parsed_model(data)->Ok_0.textures.len() <= le_at(parsed_model(data)->Ok_0.system, 0x38, 2),
{
    let system = system_of(data);
    let graphics = graphics_of(data);
    let total = le_at(system, 0x38, 2);
    if total > 0 {
        lemma_textures_in_prefix(
            system,
            graphics,
            hash_bytes(system, graphics),
            pointer_bytes(system, graphics)->0,
            total,
            total,
        );
    }
}

} // verus!
