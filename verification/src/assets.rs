//! Built-in artefacts: the in-page serializer, the Figma plugin, and the
//! script for the Scripter plugin assembled from them.

use vstd::prelude::*;
use crate::text::{ends_even, good_piece, lemma_append_good_piece, quotes_escaped, trailing_backslashes, chars_of, find, find_from, lemma_find_from, lemma_find_from_shift, push_char, replace, replace_all};

verus! {

/// Serializer injected into the page; defines `window.__dom2figma` once.
pub const SERIALIZE_JS: &'static str = r##"(function () {
  if (window.__dom2figma) return;

  function sleep(ms) {
    return new Promise(function (resolve) { setTimeout(resolve, ms); });
  }

  function nextFrame() {
    return new Promise(function (resolve) { requestAnimationFrame(function () { resolve(); }); });
  }

  function px(value) {
    const n = parseFloat(value);
    return isNaN(n) ? 0 : n;
  }

  // rgb()/rgba() of a computed style as 0..1 channels; null when fully transparent.
  function color(value) {
    const m = /rgba?\(([^)]*)\)/.exec(value || '');
    if (!m) return null;
    const p = m[1].split(/[\s,\/]+/).filter(Boolean).map(parseFloat);
    const a = p.length > 3 ? p[3] : 1;
    if (!(a > 0)) return null;
    return { r: p[0] / 255, g: p[1] / 255, b: p[2] / 255, a: a };
  }

  function splitTop(value) {
    return value.split(/,(?![^(]*\))/).map(function (s) { return s.trim(); });
  }

  function shadows(value) {
    if (!value || value === 'none') return [];
    const out = [];
    splitTop(value).forEach(function (part) {
      const c = color(part);
      if (!c) return;
      const rest = part.replace(/rgba?\([^)]*\)/, '');
      const inset = /\binset\b/.test(rest);
      const n = rest.replace('inset', '').trim().split(/\s+/).map(px);
      out.push({ x: n[0] || 0, y: n[1] || 0, blur: n[2] || 0, spread: n[3] || 0, color: c, inset: inset });
    });
    return out;
  }

  function gradient(value) {
    const m = /linear-gradient\((.*)\)/.exec(value || '');
    if (!m) return null;
    const parts = splitTop(m[1]);
    let angle = 180;
    if (/deg$/.test(parts[0])) {
      angle = px(parts.shift());
    } else if (/^to /.test(parts[0])) {
      const dir = { 'to top': 0, 'to right': 90, 'to bottom': 180, 'to left': 270 }[parts.shift()];
      angle = dir === undefined ? 180 : dir;
    }
    const stops = parts.map(function (s, i) {
      const pos = /(\d+(\.\d+)?)%/.exec(s.replace(/rgba?\([^)]*\)/, ''));
      return {
        color: color(s) || { r: 0, g: 0, b: 0, a: 0 },
        position: pos ? px(pos[1]) / 100 : (parts.length > 1 ? i / (parts.length - 1) : 0),
      };
    });
    return { type: 'linear', angle: angle, stops: stops };
  }

  function textNode(text, rect, cs, ox, oy) {
    const c = color(cs.color);
    const value = cs.whiteSpace.indexOf('pre') === 0 ? text : text.replace(/\s+/g, ' ').trim();
    if (!c || !value.trim() || rect.width === 0) return null;
    return {
      type: 'text',
      text: value,
      x: rect.left - ox,
      y: rect.top - oy,
      w: rect.width,
      h: rect.height,
      font: {
        family: cs.fontFamily.split(',')[0].replace(/["']/g, '').trim(),
        size: px(cs.fontSize),
        weight: parseInt(cs.fontWeight, 10) || 400,
        italic: cs.fontStyle === 'italic',
      },
      color: c,
      align: cs.textAlign,
      letterSpacing: cs.letterSpacing === 'normal' ? 0 : px(cs.letterSpacing),
      lineHeight: cs.lineHeight === 'normal' ? null : px(cs.lineHeight),
      transform: cs.textTransform,
      underline: cs.textDecorationLine.indexOf('underline') >= 0,
    };
  }

  function pseudo(el, which, rect, ox, oy) {
    const cs = getComputedStyle(el, which);
    const m = /^["'](.*)["']$/.exec(cs.content || '');
    if (!m || cs.display === 'none') return null;
    return textNode(m[1], rect, cs, ox, oy);
  }

  function visible(cs) {
    return cs.display !== 'none' && cs.visibility !== 'hidden' && px(cs.opacity) > 0;
  }

  function walk(el, ox, oy) {
    const cs = getComputedStyle(el);
    if (!visible(cs)) return null;
    const tag = el.tagName.toLowerCase();
    if (['script', 'style', 'noscript', 'template', 'head'].indexOf(tag) >= 0) return null;
    const r = el.getBoundingClientRect();
    if (tag === 'svg') {
      return { type: 'svg', x: r.left - ox, y: r.top - oy, w: r.width, h: r.height, svg: el.outerHTML, opacity: px(cs.opacity) };
    }
    const node = {
      type: 'frame',
      name: tag + (el.id ? '#' + el.id : '') + (el.classList.length ? '.' + el.classList[0] : ''),
      x: r.left - ox,
      y: r.top - oy,
      w: r.width,
      h: r.height,
      fills: [],
      strokes: {},
      radius: [px(cs.borderTopLeftRadius), px(cs.borderTopRightRadius), px(cs.borderBottomRightRadius), px(cs.borderBottomLeftRadius)],
      shadows: shadows(cs.boxShadow),
      opacity: px(cs.opacity),
      clip: cs.overflowX !== 'visible' || cs.overflowY !== 'visible',
      children: [],
    };
    const bg = color(cs.backgroundColor);
    if (bg) node.fills.push({ type: 'solid', color: bg });
    const g = gradient(cs.backgroundImage);
    if (g) node.fills.push(g);
    const img = /url\(["']?(data:[^"')]+)["']?\)/.exec(cs.backgroundImage || '');
    if (img) node.fills.push({ type: 'image', src: img[1], fit: cs.backgroundSize });
    if (tag === 'img' && /^data:/.test(el.src)) node.fills.push({ type: 'image', src: el.src, fit: cs.objectFit });
    ['Top', 'Right', 'Bottom', 'Left'].forEach(function (side) {
      const w = px(cs['border' + side + 'Width']);
      const c = color(cs['border' + side + 'Color']);
      if (w > 0 && c && cs['border' + side + 'Style'] !== 'none') node.strokes[side.toLowerCase()] = { width: w, color: c };
    });
    const before = pseudo(el, '::before', r, ox, oy);
    if (before) node.children.push(before);
    if (tag === 'input' || tag === 'textarea') {
      const text = el.value || el.placeholder || '';
      const t = textNode(text, r, el.value ? cs : getComputedStyle(el, '::placeholder'), ox, oy);
      if (t) node.children.push(t);
    }
    el.childNodes.forEach(function (child) {
      if (child.nodeType === Node.TEXT_NODE) {
        const range = document.createRange();
        range.selectNodeContents(child);
        const t = textNode(child.textContent, range.getBoundingClientRect(), cs, ox, oy);
        if (t) node.children.push(t);
      } else if (child.nodeType === Node.ELEMENT_NODE) {
        const n = walk(child, ox, oy);
        if (n) node.children.push(n);
      }
    });
    const after = pseudo(el, '::after', r, ox, oy);
    if (after) node.children.push(after);
    return node;
  }

  window.__dom2figma = {
    settle: async function (ms) {
      await sleep(ms);
      await nextFrame();
      return true;
    },
    setCss: function (id, css) {
      let el = document.getElementById(id);
      if (!el) {
        el = document.createElement('style');
        el.id = id;
        (document.head || document.documentElement).appendChild(el);
      }
      el.textContent = css;
      return true;
    },
    fit: function (rootSel, scrollSel, minHeight) {
      const root = document.querySelector(rootSel);
      if (!root) return false;
      if (scrollSel) {
        const sc = document.querySelector(scrollSel);
        if (sc) {
          sc.style.setProperty('height', 'auto', 'important');
          sc.style.setProperty('max-height', 'none', 'important');
          sc.style.setProperty('overflow', 'visible', 'important');
          root.style.setProperty('height', 'auto', 'important');
          if (minHeight > 0) root.style.setProperty('min-height', minHeight + 'px', 'important');
        }
      }
      return true;
    },
    docHeight: function () {
      const d = document.documentElement;
      return Math.max(d.scrollHeight, d.offsetHeight, document.body ? document.body.scrollHeight : 0);
    },
    serialize: function (rootSel) {
      const root = document.querySelector(rootSel);
      if (!root) return { error: 'корень `' + rootSel + '` не найден' };
      const r = root.getBoundingClientRect();
      return { w: r.width, h: r.height, tree: walk(root, r.left, r.top) };
    },
  };
})();
"##;

/// Manifest of the Figma plugin.
pub const PLUGIN_MANIFEST: &'static str = r##"{
  "name": "dom2figma",
  "id": "dom2figma-local",
  "api": "1.0.0",
  "main": "code.js",
  "ui": "ui.html",
  "editorType": ["figma"],
  "documentAccess": "dynamic-page"
}
"##;

/// Code of the Figma plugin; the part between the library markers is shared
/// with the Scripter variant.
pub const PLUGIN_CODE: &'static str = r##"// dom2figma: builds editable Figma layers from the JSON written by `dom2figma capture`.

// --- LIB START ---
const FALLBACK_FONT = { family: 'Inter', style: 'Regular' };
const loadedFonts = {};

function solid(c) {
  return { type: 'SOLID', color: { r: c.r, g: c.g, b: c.b }, opacity: c.a === undefined ? 1 : c.a };
}

function styleName(weight, italic) {
  const names = { 100: 'Thin', 200: 'ExtraLight', 300: 'Light', 400: 'Regular', 500: 'Medium', 600: 'SemiBold', 700: 'Bold', 800: 'ExtraBold', 900: 'Black' };
  const base = names[Math.round((weight || 400) / 100) * 100] || 'Regular';
  if (!italic) return base;
  return base === 'Regular' ? 'Italic' : base + ' Italic';
}

async function useFont(family, weight, italic) {
  const wanted = { family: family || FALLBACK_FONT.family, style: styleName(weight, italic) };
  const key = wanted.family + '/' + wanted.style;
  if (loadedFonts[key] === undefined) {
    const candidates = [wanted, { family: wanted.family, style: 'Regular' }, FALLBACK_FONT];
    for (const font of candidates) {
      try {
        await figma.loadFontAsync(font);
        loadedFonts[key] = font;
        break;
      } catch (e) {
        // try the next candidate
      }
    }
  }
  return loadedFonts[key];
}

// CSS angle (0deg points up, clockwise) to a Figma gradient transform over the unit square.
function gradientPaint(g) {
  const a = g.angle * Math.PI / 180;
  const s = Math.sin(a);
  const c = Math.cos(a);
  return {
    type: 'GRADIENT_LINEAR',
    gradientTransform: [[s, -c, 0.5 - s / 2 + c / 2], [c, s, 0.5 - c / 2 - s / 2]],
    gradientStops: g.stops.map(function (st) {
      return { position: st.position, color: { r: st.color.r, g: st.color.g, b: st.color.b, a: st.color.a } };
    }),
  };
}

function imagePaint(f) {
  const image = figma.createImage(figma.base64Decode(f.src.split(',')[1] || ''));
  return { type: 'IMAGE', imageHash: image.hash, scaleMode: f.fit === 'contain' ? 'FIT' : 'FILL' };
}

function paints(list) {
  const out = [];
  for (const f of list || []) {
    if (f.type === 'solid') out.push(solid(f.color));
    else if (f.type === 'linear') out.push(gradientPaint(f));
    else if (f.type === 'image') {
      try {
        out.push(imagePaint(f));
      } catch (e) {
        // an image Figma cannot decode is left out
      }
    }
  }
  return out;
}

function effects(list) {
  return (list || []).map(function (s) {
    return {
      type: s.inset ? 'INNER_SHADOW' : 'DROP_SHADOW',
      color: { r: s.color.r, g: s.color.g, b: s.color.b, a: s.color.a },
      offset: { x: s.x, y: s.y },
      radius: s.blur,
      spread: s.spread,
      visible: true,
      blendMode: 'NORMAL',
    };
  });
}

function applyStrokes(frame, strokes) {
  const sides = Object.keys(strokes || {});
  if (!sides.length) return;
  frame.strokes = [solid(strokes[sides[0]].color)];
  frame.strokeAlign = 'INSIDE';
  frame.strokeTopWeight = strokes.top ? strokes.top.width : 0;
  frame.strokeRightWeight = strokes.right ? strokes.right.width : 0;
  frame.strokeBottomWeight = strokes.bottom ? strokes.bottom.width : 0;
  frame.strokeLeftWeight = strokes.left ? strokes.left.width : 0;
}

async function buildText(n, parent, px, py) {
  const t = figma.createText();
  parent.appendChild(t);
  t.fontName = await useFont(n.font.family, n.font.weight, n.font.italic);
  let text = n.text;
  if (n.transform === 'uppercase') text = text.toUpperCase();
  else if (n.transform === 'lowercase') text = text.toLowerCase();
  t.characters = text;
  t.fontSize = Math.max(1, n.font.size || 12);
  t.fills = [solid(n.color)];
  if (n.letterSpacing) t.letterSpacing = { unit: 'PIXELS', value: n.letterSpacing };
  if (n.lineHeight) t.lineHeight = { unit: 'PIXELS', value: n.lineHeight };
  t.textAlignHorizontal = { center: 'CENTER', right: 'RIGHT', end: 'RIGHT', justify: 'JUSTIFIED' }[n.align] || 'LEFT';
  if (n.underline) t.textDecoration = 'UNDERLINE';
  t.textAutoResize = 'HEIGHT';
  t.resize(Math.max(1, n.w + 1), Math.max(1, n.h));
  t.x = n.x - px;
  t.y = n.y - py;
  return t;
}

async function buildNode(n, parent, px, py) {
  if (!n) return null;
  if (n.type === 'text') return buildText(n, parent, px, py);
  if (n.type === 'svg') {
    let s;
    try {
      s = figma.createNodeFromSvg(n.svg);
    } catch (e) {
      return null;
    }
    parent.appendChild(s);
    s.x = n.x - px;
    s.y = n.y - py;
    if (n.w > 0 && n.h > 0) s.resize(n.w, n.h);
    if (n.opacity !== undefined && n.opacity < 1) s.opacity = n.opacity;
    return s;
  }
  const f = figma.createFrame();
  parent.appendChild(f);
  f.name = n.name || 'frame';
  f.x = n.x - px;
  f.y = n.y - py;
  f.resize(Math.max(0.01, n.w), Math.max(0.01, n.h));
  f.fills = paints(n.fills);
  applyStrokes(f, n.strokes);
  const r = n.radius || [0, 0, 0, 0];
  f.topLeftRadius = r[0];
  f.topRightRadius = r[1];
  f.bottomRightRadius = r[2];
  f.bottomLeftRadius = r[3];
  f.effects = effects(n.shadows);
  f.clipsContent = !!n.clip;
  if (n.opacity !== undefined && n.opacity < 1) f.opacity = n.opacity;
  for (const child of n.children || []) await buildNode(child, f, n.x, n.y);
  return f;
}

// Lays the screens out on the current page: a section per group, screens left to right.
async function importAll(data, opts) {
  const groups = data.groups || data.personas || [];
  const gap = (opts && opts.gap) || 200;
  const page = figma.currentPage;
  let count = 0;
  let top = 0;
  for (const group of groups) {
    const section = figma.createSection();
    section.name = group.name;
    page.appendChild(section);
    section.x = 0;
    section.y = top;
    let x = gap;
    let height = 0;
    for (const screen of group.screens || []) {
      if (!screen.tree) continue;
      const frame = await buildNode(screen.tree, section, 0, 0);
      if (!frame) continue;
      frame.name = screen.name || screen.route;
      frame.x = x;
      frame.y = gap;
      x += frame.width + gap;
      height = Math.max(height, frame.height);
      count += 1;
    }
    section.resizeWithoutConstraints(Math.max(x, gap * 2), height + gap * 2);
    top += height + gap * 3;
  }
  if (page.children.length) figma.viewport.scrollAndZoomIntoView(page.children);
  return count;
}
// --- LIB END ---

figma.showUI(__html__, { width: 360, height: 240 });

figma.ui.onmessage = async function (msg) {
  if (!msg || msg.type !== 'import') return;
  try {
    const n = await importAll(msg.data, { gap: 200 });
    figma.notify('dom2figma: импортировано экранов: ' + n);
    figma.ui.postMessage({ type: 'done', count: n });
  } catch (e) {
    figma.notify('dom2figma: ' + (e && e.message ? e.message : e), { error: true });
    figma.ui.postMessage({ type: 'error', message: String(e && e.message ? e.message : e) });
  }
};
"##;

/// User interface of the Figma plugin.
pub const PLUGIN_UI: &'static str = r##"<!doctype html>
<html>
<body style="font: 12px Inter, sans-serif; margin: 16px;">
  <p>Выберите JSON, снятый командой <code>dom2figma capture</code>.</p>
  <input type="file" id="file" accept=".json,application/json">
  <p id="info"></p>
  <button id="go" disabled>Импортировать</button>
  <script>
    let data = null;
    const info = document.getElementById('info');
    const go = document.getElementById('go');
    document.getElementById('file').onchange = async function (e) {
      const file = e.target.files[0];
      if (!file) return;
      try {
        data = JSON.parse(await file.text());
        const groups = data.groups || data.personas || [];
        const screens = groups.reduce(function (n, g) { return n + (g.screens || []).length; }, 0);
        info.textContent = 'Групп: ' + groups.length + ', экранов: ' + screens;
        go.disabled = screens === 0;
      } catch (err) {
        data = null;
        info.textContent = 'Не удалось прочитать JSON: ' + err.message;
        go.disabled = true;
      }
    };
    go.onclick = function () {
      go.disabled = true;
      info.textContent = 'Импорт…';
      parent.postMessage({ pluginMessage: { type: 'import', data: data } }, '*');
    };
    onmessage = function (e) {
      const m = e.data.pluginMessage;
      if (!m) return;
      info.textContent = m.type === 'done' ? 'Готово, экранов: ' + m.count : 'Ошибка: ' + m.message;
      go.disabled = false;
    };
  </script>
</body>
</html>
"##;

/// Start of the Scripter variant; `__URL__` stands for the JSON's address.
pub const SCRIPTER_HEADER: &'static str = r##"// dom2figma for Scripter: paste into Plugins → Scripter → New script and press Run.
const URL = '__URL__';
const OPTS = { gap: 200 };

"##;

/// End of the Scripter variant: fetch the JSON and import it.
pub const SCRIPTER_FOOTER: &'static str = r##"
const data = await (await fetch(URL)).json();
const n = await importAll(data, OPTS)
print('dom2figma: импортировано экранов: ' + n);
"##;

pub const LIB_START: &'static str = "// --- LIB START ---";
pub const LIB_END: &'static str = "// --- LIB END ---";
pub const URL_PLACEHOLDER: &'static str = "__URL__";

/// How one character is written inside a single-quoted JS string: `\` and `'`
/// get a backslash in front.
pub open spec fn js_escape_char(c: char) -> Seq<char> {
    if c == '\\' || c == '\'' {
        seq!['\\', c]
    } else {
        seq![c]
    }
}

/// Text to put between single quotes in JS so that it stands for `s`.
pub open spec fn js_escape(s: Seq<char>) -> Seq<char>
    decreases s.len(),
{
    if s.len() == 0 {
        Seq::empty()
    } else {
        js_escape(s.drop_last()) + js_escape_char(s.last())
    }
}

/// What a JS single-quoted string reads: a backslash makes the next
/// character stand for itself.
pub open spec fn js_unescape(s: Seq<char>) -> Seq<char>
    decreases s.len(),
{
    if s.len() == 0 {
        Seq::empty()
    } else if s[0] == '\\' && s.len() >= 2 {
        seq![s[1]] + js_unescape(s.skip(2))
    } else {
        seq![s[0]] + js_unescape(s.skip(1))
    }
}

/// Escapes `\` and `'` for a single-quoted JS string literal.
pub fn escape_js(s: &str) -> (r: String)
    ensures
        r@ == js_escape(s@),
{
    let cs = chars_of(s);
    let mut r = String::new();
    let mut i: usize = 0;
    while i < cs.len()
        invariant
            i <= cs@.len(),
            r@ == js_escape(cs@.take(i as int)),
        decreases cs.len() - i,
    {
        let c = cs[i];
        assert(cs@.take(i + 1).drop_last() == cs@.take(i as int));
        if c == '\\' || c == '\'' {
            push_char(&mut r, '\\');
        }
        push_char(&mut r, c);
        i = i + 1;
        assert(r@ =~= js_escape(cs@.take(i as int)));
    }
    assert(cs@.take(cs@.len() as int) == cs@);
    r
}

proof fn lemma_js_escape_append(a: Seq<char>, b: Seq<char>)
    ensures
        js_escape(a + b) == js_escape(a) + js_escape(b),
    decreases b.len(),
{
    if b.len() == 0 {
        assert(a + b == a);
    } else {
        lemma_js_escape_append(a, b.drop_last());
        assert((a + b).drop_last() == a + b.drop_last());
    }
}

/// Reading back an escaped text gives the text: whatever the URL holds, it
/// cannot end the JS string early.
pub proof fn lemma_js_escape_roundtrip(s: Seq<char>)
    ensures
        js_unescape(js_escape(s)) == s,
    decreases s.len(),
{
    if s.len() > 0 {
        let c = s[0];
        let rest = s.drop_first();
        assert(s == seq![c] + rest);
        lemma_js_escape_append(seq![c], rest);
        assert(seq![c].drop_last() =~= Seq::<char>::empty());
        assert(js_escape(seq![c]) == js_escape(seq![c].drop_last()) + js_escape_char(c));
        assert(Seq::<char>::empty() + js_escape_char(c) =~= js_escape_char(c));
        let e = js_escape(s);
        lemma_js_escape_roundtrip(rest);
        if c == '\\' || c == '\'' {
            assert(e == seq!['\\', c] + js_escape(rest));
            assert(e.skip(2) == js_escape(rest));
        } else {
            assert(e == seq![c] + js_escape(rest));
            assert(e.skip(1) == js_escape(rest));
        }
    }
}

/// The part of `s` before the first `pat` (all of `s` when there is none).
pub open spec fn before_first(s: Seq<char>, pat: Seq<char>) -> Seq<char> {
    match find_from(s, pat, 0) {
        Some(i) => s.take(i),
        None => s,
    }
}

/// The shared library of the plugin code: after the first start marker, up
/// to the next start marker and then up to the first end marker
/// (`split(LIB_START).nth(1)`, then `split(LIB_END).next()`).
pub open spec fn lib_of(code: Seq<char>) -> Option<Seq<char>> {
    match find_from(code, LIB_START@, 0) {
        Some(i) => Some(before_first(before_first(code.skip(i + LIB_START@.len()), LIB_START@), LIB_END@)),
        None => None,
    }
}

/// The Scripter script for the JSON at `url`, given the shared library.
pub open spec fn scripter_text(url: Seq<char>, lib: Seq<char>) -> Seq<char> {
    replace_all(SCRIPTER_HEADER@, URL_PLACEHOLDER@, js_escape(url)) + lib + SCRIPTER_FOOTER@
}

/// The plugin code holds no library markers.
#[derive(Debug, Clone, Copy, PartialEq, Eq, Structural)]
pub enum AssetError {
    MissingLibMarkers,
}

impl AssetError {
    /// Message shown to the user.
    pub fn message(&self) -> (m: String)
        ensures
            m@ == "в code.js нет маркеров LIB START/END"@,
    {
        String::from_str("в code.js нет маркеров LIB START/END")
    }
}

fn before_first_exec(v: &Vec<char>, from: usize, pat: &Vec<char>) -> (r: usize)
    requires
        from <= v@.len(),
        pat@.len() > 0,
    ensures
        from <= r <= v@.len(),
        v@.subrange(from as int, r as int) == before_first(v@.skip(from as int), pat@),
{
    proof {
        lemma_find_from(v@, pat@, from as int);
        lemma_find_from_shift(v@, pat@, from as int, 0);
    }
    match find(v, pat, from) {
        Some(i) => {
            assert(v@.subrange(from as int, i as int) =~= v@.skip(from as int).take(i - from));
            i
        },
        None => {
            assert(v@.subrange(from as int, v@.len() as int) =~= v@.skip(from as int));
            v.len()
        },
    }
}

/// Builds the script for the Scripter plugin: the shared library of the
/// plugin code framed by the code that loads the JSON from `url`.
pub fn build_scripter(url: &str) -> (r: Result<String, AssetError>)
    ensures
        match r {
            Ok(s) => lib_of(PLUGIN_CODE@) is Some && s@ == scripter_text(url@, lib_of(PLUGIN_CODE@)->0),
            Err(_) => lib_of(PLUGIN_CODE@) is None,
        },
{
    let code = chars_of(PLUGIN_CODE);
    let start = chars_of(LIB_START);
    let end = chars_of(LIB_END);
    proof {
        reveal_strlit("// --- LIB START ---");
        reveal_strlit("// --- LIB END ---");
        reveal_strlit("__URL__");
    }
    assert(start@.len() > 0);
    assert(end@.len() > 0);
    let first = match find(&code, &start, 0) {
        Some(i) => i,
        None => return Err(AssetError::MissingLibMarkers),
    };
    proof {
        lemma_find_from(code@, start@, 0);
    }
    assert(first + start@.len() <= code@.len());
    assert(code@.len() == code.len());
    let from = first + start.len();
    let piece_end = before_first_exec(&code, from, &start);
    let ghost piece = code@.subrange(from as int, piece_end as int);
    // The part of the piece before the first end marker.
    let sub: Vec<char> = {
        let mut w: Vec<char> = Vec::new();
        let mut k = from;
        while k < piece_end
            invariant
                from <= k <= piece_end <= code@.len(),
                w@ == code@.subrange(from as int, k as int),
            decreases piece_end - k,
        {
            w.push(code[k]);
            k = k + 1;
            assert(w@ == code@.subrange(from as int, k as int));
        }
        w
    };
    assert(sub@ == piece);
    let lib_end = before_first_exec(&sub, 0, &end);
    assert(sub@.skip(0) == sub@);
    let mut out = replace(SCRIPTER_HEADER, URL_PLACEHOLDER, escape_js(url).as_str());
    let mut k: usize = 0;
    let ghost head = out@;
    while k < lib_end
        invariant
            k <= lib_end <= sub@.len(),
            out@ == head + sub@.subrange(0, k as int),
        decreases lib_end - k,
    {
        push_char(&mut out, sub[k]);
        k = k + 1;
        assert(out@ == head + sub@.subrange(0, k as int));
    }
    out.append(SCRIPTER_FOOTER);
    Ok(out)
}

proof fn lemma_js_piece_good(c: char)
    ensures
        good_piece(js_escape_char(c), '\''),
        forall|i: int| 0 <= i < js_escape_char(c).len() ==> (#[trigger] js_escape_char(c)[i] == c || js_escape_char(c)[i] == '\\'),
{
    let p = js_escape_char(c);
    if c == '\\' || c == '\'' {
        assert(p.take(0).len() == 0);
        assert(p.take(1) == seq!['\\']);
        assert(seq!['\\'].drop_last() =~= Seq::<char>::empty());
        assert(p.drop_last() =~= seq!['\\']);
        assert(seq!['\\'].last() == '\\');
        assert(trailing_backslashes(Seq::<char>::empty()) == 0);
        assert(trailing_backslashes(seq!['\\']) == 1 + trailing_backslashes(seq!['\\'].drop_last()));
        assert(trailing_backslashes(seq!['\\']) == 1);
        if c == '\\' {
            assert(trailing_backslashes(p) == 2);
        }
    } else {
        assert(p.take(0).len() == 0);
    }
}

/// Inside the escaped text every `'` follows an odd run of backslashes, and
/// the text ends on an even run: put between single quotes, nothing in it can
/// close the JS literal. It holds a line break only where `s` does.
pub proof fn lemma_js_escape_quotes(s: Seq<char>)
    ensures
        quotes_escaped(js_escape(s), '\''),
        ends_even(js_escape(s)),
        forall|i: int| 0 <= i < js_escape(s).len() && (#[trigger] js_escape(s)[i] == '\n' || js_escape(s)[i] == '\r')
            ==> s.contains(js_escape(s)[i]),
    decreases s.len(),
{
    if s.len() > 0 {
        let p = s.drop_last();
        lemma_js_escape_quotes(p);
        lemma_js_piece_good(s.last());
        lemma_append_good_piece(js_escape(p), js_escape_char(s.last()), '\'');
        let e = js_escape(s);
        assert forall|i: int| 0 <= i < e.len() && (#[trigger] e[i] == '\n' || e[i] == '\r') implies s.contains(e[i]) by {
            if i < js_escape(p).len() {
                assert(e[i] == js_escape(p)[i]);
                let k = choose|k: int| 0 <= k < p.len() && p[k] == e[i];
                assert(s[k] == p[k]);
            } else {
                let j = i - js_escape(p).len();
                assert(e[i] == js_escape_char(s.last())[j]);
                assert(s[s.len() - 1] == s.last());
            }
        }
    } else {
        assert(js_escape(s).len() == 0);
    }
}

} // verus!
