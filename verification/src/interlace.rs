//! Interlacing modes and the Adam7 pass geometry.

use vstd::prelude::*;

verus! {

/// How scanlines are ordered in the serialized image data.
#[derive(Clone, Copy, PartialEq, Eq, Structural, Debug, Hash)]
pub enum Interlacing {
    /// Rows appear top to bottom, each once.
    Standard,
    /// Rows appear in the seven Adam7 passes.
    Adam7,
}

impl Interlacing {
    /// The interlace method byte stored in the IHDR chunk.
    pub open spec fn spec_png_code(self) -> u8 {
        match self {
            Interlacing::Standard => 0,
            Interlacing::Adam7 => 1,
        }
    }

    pub fn png_code(self) -> (r: u8)
        ensures
            r == self.spec_png_code(),
    {
        match self {
            Interlacing::Standard => 0,
            Interlacing::Adam7 => 1,
        }
    }
}

/// Horizontal start of each Adam7 pass.
pub open spec fn spec_pass_x0(pass: int) -> nat {
    if pass == 1 {
        0
    } else if pass == 2 {
        4
    } else if pass == 3 {
        0
    } else if pass == 4 {
        2
    } else if pass == 5 {
        0
    } else if pass == 6 {
        1
    } else {
        0
    }
}

/// Vertical start of each Adam7 pass.
pub open spec fn spec_pass_y0(pass: int) -> nat {
    if pass == 1 {
        0
    } else if pass == 2 {
        0
    } else if pass == 3 {
        4
    } else if pass == 4 {
        0
    } else if pass == 5 {
        2
    } else if pass == 6 {
        0
    } else {
        1
    }
}

/// Horizontal step of each Adam7 pass.
pub open spec fn spec_pass_dx(pass: int) -> nat {
    if pass == 1 {
        8
    } else if pass == 2 {
        8
    } else if pass == 3 {
        4
    } else if pass == 4 {
        4
    } else if pass == 5 {
        2
    } else if pass == 6 {
        2
    } else {
        1
    }
}

/// Vertical step of each Adam7 pass.
pub open spec fn spec_pass_dy(pass: int) -> nat {
    if pass == 1 {
        8
    } else if pass == 2 {
        8
    } else if pass == 3 {
        8
    } else if pass == 4 {
        4
    } else if pass == 5 {
        4
    } else if pass == 6 {
        2
    } else {
        2
    }
}

pub fn pass_geometry(pass: u8) -> (r: (usize, usize, usize, usize))
    requires
        1 <= pass <= 7,
    ensures
        r.0 == spec_pass_x0(pass as int),
        r.1 == spec_pass_y0(pass as int),
        r.2 == spec_pass_dx(pass as int),
        r.3 == spec_pass_dy(pass as int),
{
    if pass == 1 {
        (0, 0, 8, 8)
    } else if pass == 2 {
        (4, 0, 8, 8)
    } else if pass == 3 {
        (0, 4, 4, 8)
    } else if pass == 4 {
        (2, 0, 4, 4)
    } else if pass == 5 {
        (0, 2, 2, 4)
    } else if pass == 6 {
        (1, 0, 2, 2)
    } else {
        (0, 1, 1, 2)
    }
}

/// Pixels of a pass along one axis: how many of `size` are hit starting at
/// `start` with the given step.
pub open spec fn spec_pass_count(size: nat, start: nat, step: nat) -> nat
    recommends
        step > 0,
{
    if size > start {
        ((size - start + step - 1) as nat) / step
    } else {
        0
    }
}

pub fn pass_count(size: usize, start: usize, step: usize) -> (r: usize)
    requires
        0 < step <= 8,
        start <= 8,
        size <= 0x7fff_ffff,
    ensures
        r == spec_pass_count(size as nat, start as nat, step as nat),
        r <= size,
{
    if size > start {
        let c = (size - start + step - 1) / step;
        proof {
            assert(c <= size) by (nonlinear_arith)
                requires
                    c == (size - start + step - 1) / (step as int),
                    1 <= step,
                    0 <= start,
                    start < size,
            ;
        }
        c
    } else {
        0
    }
}

/// A pass coordinate stays inside the image.
pub proof fn lemma_pass_coord(size: nat, start: nat, step: nat, k: int)
    requires
        1 <= step,
        0 <= k < spec_pass_count(size, start, step),
    ensures
        start + k * step < size,
{
    assert(start + k * step < size) by (nonlinear_arith)
        requires
            1 <= step,
            0 <= k,
            size > start,
            k < ((size - start + step - 1) as nat) / step,
    ;
}


/// Adding a contiguous row keeps a layout well formed.
pub proof fn lemma_layout_push(rows: Seq<crate::filters::RowInfo>, total: nat, info: crate::filters::RowInfo)
    requires
        crate::filters::layout_wf(rows, total),
        info.start == total,
        rows.len() == 0 ==> info.first,
        !info.first ==> rows.len() > 0 && info.len == rows[rows.len() - 1].len,
    ensures
        crate::filters::layout_wf(rows.push(info), (total + info.len) as nat),
{
    let out = rows.push(info);
    assert forall|i: int| 0 < i < out.len() implies (#[trigger] out[i]).start == out[i - 1].start
        + out[i - 1].len by {
        if i < rows.len() {
            assert(out[i] == rows[i] && out[i - 1] == rows[i - 1]);
        } else {
            assert(out[i] == info);
        }
    }
    assert forall|i: int| 0 < i < out.len() && !(#[trigger] out[i]).first implies out[i].len
        == out[i - 1].len by {
        if i < rows.len() {
            assert(out[i] == rows[i] && out[i - 1] == rows[i - 1]);
        }
    }
    assert forall|i: int| 0 <= i < out.len() implies (#[trigger] out[i]).start + out[i].len
        <= total + info.len by {
        if i < rows.len() {
            assert(out[i] == rows[i]);
        }
    }
}

/// Build the row layout of the seven Adam7 passes and the total byte size of
/// the interlaced buffer. Returns nothing if the buffer cannot fit in
/// memory.
#[verifier::rlimit(100)]
pub fn build_pass_rows(ihdr: &crate::png::IhdrData) -> (r: Option<(Vec<crate::filters::RowInfo>, usize)>)
    requires
        ihdr.spec_dims_ok(),
    ensures
        match r {
            Some(p) => crate::filters::layout_wf(p.0@, p.1 as nat) && p.1 + p.0@.len()
                <= usize::MAX,
            None => true,
        },
{
    let ch = ihdr.color_type.channels() as usize;
    let depth = ihdr.bit_depth.as_u8();
    let w = ihdr.width as usize;
    let h = ihdr.height as usize;
    let mut rows: Vec<crate::filters::RowInfo> = Vec::new();
    let mut run: usize = 0;
    let mut pass: u8 = 1;
    while pass <= 7
        invariant
            1 <= pass <= 8,
            ihdr.spec_dims_ok(),
            ch == ihdr.color_type.spec_channels(),
            depth as nat == ihdr.bit_depth.spec_bits(),
            w == ihdr.width,
            h == ihdr.height,
            crate::filters::layout_wf(rows@, run as nat),
            run + rows@.len() <= usize::MAX,
        decreases 8 - pass,
    {
        let (x0, y0, dx, dy) = pass_geometry(pass);
        let pw = pass_count(w, x0, dx);
        let ph = pass_count(h, y0, dy);
        if pw > 0 && ph > 0 {
            proof {
                assert(pw * ch <= ihdr.spec_row_samples() && pw * ch * (depth as nat)
                    <= ihdr.spec_row_samples() * ihdr.bit_depth.spec_bits()) by (nonlinear_arith)
                    requires
                        pw <= w,
                        ch == ihdr.color_type.spec_channels(),
                        depth as nat == ihdr.bit_depth.spec_bits(),
                        ihdr.spec_row_samples() == w * ch,
                ;
            }
            let prb = crate::bits::row_bytes(pw * ch, depth);
            if prb == 0 {
                return Option::None;
            }
            let mut py: usize = 0;
            while py < ph
                invariant
                    crate::filters::layout_wf(rows@, run as nat),
                    run + rows@.len() <= usize::MAX,
                    prb >= 1,
                    py <= ph,
                    py > 0 ==> rows@.len() > 0 && rows@[rows@.len() - 1].len == prb,
                decreases ph - py,
            {
                if run >= usize::MAX - prb || rows.len() >= usize::MAX - run - prb {
                    return Option::None;
                }
                let info = crate::filters::RowInfo { start: run, len: prb, first: py == 0 };
                proof {
                    if py > 0 {
                        assert(rows@.len() > 0 && rows@[rows@.len() - 1].len == prb);
                    }
                    lemma_layout_push(rows@, run as nat, info);
                }
                rows.push(info);
                run = run + prb;
                py = py + 1;
            }
        }
        pass = pass + 1;
    }
    Some((rows, run))
}

/// Merge the unfiltered Adam7 pass rows into the linear row layout. The
/// geometry is rechecked dynamically; a malformed buffer yields nothing.
#[verifier::rlimit(100)]
pub fn deinterlace_image(ihdr: &crate::png::IhdrData, ibuf: &Vec<u8>) -> (r: Option<Vec<u8>>)
    requires
        ihdr.spec_dims_ok(),
    ensures
        match r {
            Some(d) => d.len() == ihdr.spec_data_len(),
            None => true,
        },
{
    let ch = ihdr.color_type.channels() as usize;
    let depth = ihdr.bit_depth.as_u8();
    let w = ihdr.width as usize;
    let h = ihdr.height as usize;
    let rb = ihdr.rb();
    let n = ihdr.row_samples();
    let total = ihdr.data_len();
    let mut out = crate::filters::zero_vec(total);
    let mut run: usize = 0;
    let mut pass: u8 = 1;
    while pass <= 7
        invariant
            1 <= pass <= 8,
            ihdr.spec_dims_ok(),
            ch == ihdr.color_type.spec_channels(),
            1 <= ch <= 4,
            depth as nat == ihdr.bit_depth.spec_bits(),
            w == ihdr.width,
            h == ihdr.height,
            rb as nat == ihdr.spec_rb(),
            n as nat == ihdr.spec_row_samples(),
            out.len() == total,
            total as nat == ihdr.spec_data_len(),
            run <= ibuf.len(),
        decreases 8 - pass,
    {
        let (x0, y0, dx, dy) = pass_geometry(pass);
        let pw = pass_count(w, x0, dx);
        let ph = pass_count(h, y0, dy);
        if pw > 0 && ph > 0 {
            proof {
                assert(pw * ch <= n && pw * ch * (depth as nat) <= n as nat
                    * ihdr.bit_depth.spec_bits()) by (nonlinear_arith)
                    requires
                        pw <= w,
                        ch == ihdr.color_type.spec_channels(),
                        depth as nat == ihdr.bit_depth.spec_bits(),
                        n as nat == w * ch,
                ;
            }
            let pn = pw * ch;
            let prb = crate::bits::row_bytes(pn, depth);
            let mut py: usize = 0;
            while py < ph
                invariant
                    ihdr.spec_dims_ok(),
                    ch == ihdr.color_type.spec_channels(),
                    1 <= ch <= 4,
                    depth as nat == ihdr.bit_depth.spec_bits(),
                    crate::bits::valid_bits(depth as nat),
                    w == ihdr.width,
                    h == ihdr.height,
                    rb as nat == ihdr.spec_rb(),
                    n as nat == ihdr.spec_row_samples(),
                    out.len() == total,
                    total as nat == ihdr.spec_data_len(),
                    run <= ibuf.len(),
                    pn as nat == pw * ch,
                    prb as nat == crate::bits::spec_row_bytes(pn as nat, depth as nat),
                    x0 <= 8 && 1 <= dx <= 8 && y0 <= 8 && 1 <= dy <= 8,
                    pw <= w,
                    pw == spec_pass_count(w as nat, x0 as nat, dx as nat),
                    ph == spec_pass_count(h as nat, y0 as nat, dy as nat),
                decreases ph - py,
            {
                if prb > ibuf.len() || run > ibuf.len() - prb {
                    return Option::None;
                }
                proof {
                    lemma_pass_coord(h as nat, y0 as nat, dy as nat, py as int);
                }
                let y = y0 + py * dy;
                if y >= h {
                    return Option::None;
                }
                let mut px: usize = 0;
                while px < pw
                    invariant
                        ihdr.spec_dims_ok(),
                        ch == ihdr.color_type.spec_channels(),
                        1 <= ch <= 4,
                        depth as nat == ihdr.bit_depth.spec_bits(),
                        crate::bits::valid_bits(depth as nat),
                        w == ihdr.width,
                        h == ihdr.height,
                        rb as nat == ihdr.spec_rb(),
                        n as nat == ihdr.spec_row_samples(),
                        out.len() == total,
                        total as nat == ihdr.spec_data_len(),
                        run + prb <= ibuf.len(),
                        pn as nat == pw * ch,
                        prb as nat == crate::bits::spec_row_bytes(pn as nat, depth as nat),
                        x0 <= 8 && 1 <= dx <= 8,
                        pw <= w,
                        pw == spec_pass_count(w as nat, x0 as nat, dx as nat),
                        y < h,
                    decreases pw - px,
                {
                    proof {
                        lemma_pass_coord(w as nat, x0 as nat, dx as nat, px as int);
                    }
                    let x = x0 + px * dx;
                    if x >= w {
                        return Option::None;
                    }
                    let mut c: usize = 0;
                    while c < ch
                        invariant
                            ihdr.spec_dims_ok(),
                            ch == ihdr.color_type.spec_channels(),
                            1 <= ch <= 4,
                            depth as nat == ihdr.bit_depth.spec_bits(),
                            crate::bits::valid_bits(depth as nat),
                            w == ihdr.width,
                            h == ihdr.height,
                            rb as nat == ihdr.spec_rb(),
                            n as nat == ihdr.spec_row_samples(),
                            out.len() == total,
                            total as nat == ihdr.spec_data_len(),
                            run + prb <= ibuf.len(),
                            pn as nat == pw * ch,
                            prb as nat == crate::bits::spec_row_bytes(pn as nat, depth as nat),
                            px < pw,
                            pw <= w,
                            x < w,
                            y < h,
                        decreases ch - c,
                    {
                        proof {
                            assert(px * ch + c < pn) by (nonlinear_arith)
                                requires
                                    px < pw,
                                    c < ch,
                                    pn as nat == pw * ch,
                            ;
                            crate::bits::lemma_sample_in_row(pn as nat, depth as nat, (px * ch
                                + c) as int);
                            assert(x * ch + c < n) by (nonlinear_arith)
                                requires
                                    x < w,
                                    c < ch,
                                    n as nat == w * ch,
                            ;
                            crate::bits::lemma_sample_in_row(n as nat, depth as nat, (x * ch
                                + c) as int);
                            crate::bits::lemma_row_extent(y as int, h as int, rb as nat);
                            assert(h as nat * rb as nat == total) by (nonlinear_arith)
                                requires
                                    total as nat == ihdr.spec_data_len(),
                                    ihdr.spec_data_len() == h as nat * ihdr.spec_rb(),
                                    rb as nat == ihdr.spec_rb(),
                            ;
                        }
                        let v = crate::bits::get_packed_sample(ibuf, run, depth, px * ch + c);
                        proof {
                            crate::bits::lemma_sample_bound(ibuf@, run as int, depth as nat, (px
                                * ch + c) as int);
                        }
                        crate::bits::set_packed_sample(&mut out, y * rb, depth, x * ch + c, v);
                        c = c + 1;
                    }
                    px = px + 1;
                }
                run = run + prb;
                py = py + 1;
            }
        }
        pass = pass + 1;
    }
    Some(out)
}

/// Gather the linear rows into the Adam7 pass layout, with the pass row
/// list. The inverse of `deinterlace_image` on well-formed images.
#[verifier::rlimit(100)]
pub fn interlace_image(ihdr: &crate::png::IhdrData, data: &Vec<u8>) -> (r: Option<
    (Vec<u8>, Vec<crate::filters::RowInfo>),
>)
    requires
        ihdr.spec_dims_ok(),
        data.len() == ihdr.spec_data_len(),
    ensures
        match r {
            Some(p) => crate::filters::layout_wf(p.1@, p.0@.len() as nat) && p.0@.len() + p.1@.len()
                <= usize::MAX,
            None => true,
        },
{
    let layout = match build_pass_rows(ihdr) {
        Some(l) => l,
        None => {
            return Option::None;
        },
    };
    let (rows, total) = layout;
    let ch = ihdr.color_type.channels() as usize;
    let depth = ihdr.bit_depth.as_u8();
    let w = ihdr.width as usize;
    let h = ihdr.height as usize;
    let rb = ihdr.rb();
    let n = ihdr.row_samples();
    let mut ibuf = crate::filters::zero_vec(total);
    let mut row_idx: usize = 0;
    let mut pass: u8 = 1;
    while pass <= 7
        invariant
            1 <= pass <= 8,
            ihdr.spec_dims_ok(),
            data.len() == ihdr.spec_data_len(),
            ch == ihdr.color_type.spec_channels(),
            1 <= ch <= 4,
            depth as nat == ihdr.bit_depth.spec_bits(),
            crate::bits::valid_bits(depth as nat),
            w == ihdr.width,
            h == ihdr.height,
            rb as nat == ihdr.spec_rb(),
            n as nat == ihdr.spec_row_samples(),
            ibuf.len() == total,
            crate::filters::layout_wf(rows@, total as nat),
            total + rows@.len() <= usize::MAX,
            row_idx <= rows.len(),
        decreases 8 - pass,
    {
        let (x0, y0, dx, dy) = pass_geometry(pass);
        let pw = pass_count(w, x0, dx);
        let ph = pass_count(h, y0, dy);
        if pw > 0 && ph > 0 {
            proof {
                assert(pw * ch <= n && pw * ch * (depth as nat) <= n as nat
                    * ihdr.bit_depth.spec_bits()) by (nonlinear_arith)
                    requires
                        pw <= w,
                        ch == ihdr.color_type.spec_channels(),
                        depth as nat == ihdr.bit_depth.spec_bits(),
                        n as nat == w * ch,
                ;
            }
            let pn = pw * ch;
            let prb = crate::bits::row_bytes(pn, depth);
            let mut py: usize = 0;
            while py < ph
                invariant
                    ihdr.spec_dims_ok(),
                    data.len() == ihdr.spec_data_len(),
                    ch == ihdr.color_type.spec_channels(),
                    1 <= ch <= 4,
                    depth as nat == ihdr.bit_depth.spec_bits(),
                    crate::bits::valid_bits(depth as nat),
                    w == ihdr.width,
                    h == ihdr.height,
                    rb as nat == ihdr.spec_rb(),
                    n as nat == ihdr.spec_row_samples(),
                    ibuf.len() == total,
                    crate::filters::layout_wf(rows@, total as nat),
                    total + rows@.len() <= usize::MAX,
                    row_idx <= rows.len(),
                    pn as nat == pw * ch,
                    prb as nat == crate::bits::spec_row_bytes(pn as nat, depth as nat),
                    x0 <= 8 && 1 <= dx <= 8 && y0 <= 8 && 1 <= dy <= 8,
                    pw <= w,
                    pw == spec_pass_count(w as nat, x0 as nat, dx as nat),
                    ph == spec_pass_count(h as nat, y0 as nat, dy as nat),
                decreases ph - py,
            {
                if row_idx >= rows.len() {
                    return Option::None;
                }
                let info = rows[row_idx];
                if prb > ibuf.len() || info.len != prb || info.start > ibuf.len() - prb {
                    return Option::None;
                }
                proof {
                    lemma_pass_coord(h as nat, y0 as nat, dy as nat, py as int);
                }
                let y = y0 + py * dy;
                if y >= h {
                    return Option::None;
                }
                let mut px: usize = 0;
                while px < pw
                    invariant
                        ihdr.spec_dims_ok(),
                        data.len() == ihdr.spec_data_len(),
                        ch == ihdr.color_type.spec_channels(),
                        1 <= ch <= 4,
                        depth as nat == ihdr.bit_depth.spec_bits(),
                        crate::bits::valid_bits(depth as nat),
                        w == ihdr.width,
                        h == ihdr.height,
                        rb as nat == ihdr.spec_rb(),
                        n as nat == ihdr.spec_row_samples(),
                        ibuf.len() == total,
                        info.start + prb <= ibuf.len(),
                        pn as nat == pw * ch,
                        prb as nat == crate::bits::spec_row_bytes(pn as nat, depth as nat),
                        x0 <= 8 && 1 <= dx <= 8,
                        pw <= w,
                        pw == spec_pass_count(w as nat, x0 as nat, dx as nat),
                        y < h,
                    decreases pw - px,
                {
                    proof {
                        lemma_pass_coord(w as nat, x0 as nat, dx as nat, px as int);
                    }
                    let x = x0 + px * dx;
                    if x >= w {
                        return Option::None;
                    }
                    let mut c: usize = 0;
                    while c < ch
                        invariant
                            ihdr.spec_dims_ok(),
                            data.len() == ihdr.spec_data_len(),
                            ch == ihdr.color_type.spec_channels(),
                            1 <= ch <= 4,
                            depth as nat == ihdr.bit_depth.spec_bits(),
                            crate::bits::valid_bits(depth as nat),
                            w == ihdr.width,
                            h == ihdr.height,
                            rb as nat == ihdr.spec_rb(),
                            n as nat == ihdr.spec_row_samples(),
                            ibuf.len() == total,
                            info.start + prb <= ibuf.len(),
                            pn as nat == pw * ch,
                            prb as nat == crate::bits::spec_row_bytes(pn as nat, depth as nat),
                            px < pw,
                            pw <= w,
                            x < w,
                            y < h,
                        decreases ch - c,
                    {
                        proof {
                            assert(px * ch + c < pn) by (nonlinear_arith)
                                requires
                                    px < pw,
                                    c < ch,
                                    pn as nat == pw * ch,
                            ;
                            crate::bits::lemma_sample_in_row(pn as nat, depth as nat, (px * ch
                                + c) as int);
                            assert(x * ch + c < n) by (nonlinear_arith)
                                requires
                                    x < w,
                                    c < ch,
                                    n as nat == w * ch,
                            ;
                            crate::bits::lemma_sample_in_row(n as nat, depth as nat, (x * ch
                                + c) as int);
                            crate::bits::lemma_row_extent(y as int, h as int, rb as nat);
                            assert(h as nat * rb as nat == data.len()) by (nonlinear_arith)
                                requires
                                    data.len() == ihdr.spec_data_len(),
                                    ihdr.spec_data_len() == h as nat * ihdr.spec_rb(),
                                    rb as nat == ihdr.spec_rb(),
                            ;
                        }
                        let v = crate::bits::get_packed_sample(data, y * rb, depth, x * ch + c);
                        proof {
                            crate::bits::lemma_sample_bound(data@, (y * rb) as int, depth as nat, (
                            x * ch + c) as int);
                        }
                        crate::bits::set_packed_sample(&mut ibuf, info.start, depth, px * ch + c, v);
                        c = c + 1;
                    }
                    px = px + 1;
                }
                row_idx = row_idx + 1;
                py = py + 1;
            }
        }
        pass = pass + 1;
    }
    Some((ibuf, rows))
}

} // verus!
