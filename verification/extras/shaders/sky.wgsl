struct Frame {
    view_proj: mat4x4<f32>,
    inv_view_proj: mat4x4<f32>,
    sun_direction: vec4<f32>,
    sun_color: vec4<f32>,
    sky_top: vec4<f32>,
    sky_horizon: vec4<f32>,
    fog_color: vec4<f32>,
    params: vec4<f32>,
    viewport: vec4<f32>,
    time: vec4<f32>,
    world_origin: vec4<f32>,
    camera_position: vec4<f32>,
};
@group(0) @binding(0)
var<uniform> frame: Frame;
struct SkyOutput {
    @builtin(position) clip_position: vec4<f32>,
    @location(0) ray: vec3<f32>,
};
@vertex
fn vs_main(@builtin(vertex_index) index: u32) -> SkyOutput {
    var positions = array<vec2<f32>, 3>(
        vec2<f32>(-1.0, -1.0),
        vec2<f32>( 3.0, -1.0),
        vec2<f32>(-1.0,  3.0),
    );
    let clip_xy = positions[index];
    let far_point = frame.inv_view_proj * vec4<f32>(clip_xy, 1.0, 1.0);
    var output: SkyOutput;
    output.clip_position = vec4<f32>(clip_xy, 1.0, 1.0);
    output.ray = far_point.xyz / far_point.w - frame.camera_position.xyz;
    return output;
}
fn hash21(p: vec2<f32>) -> f32 {
    var q = fract(p * vec2<f32>(123.34, 456.21));
    q = q + vec2<f32>(dot(q, q.yx + vec2<f32>(45.32)));
    return fract(q.x * q.y);
}
fn noise3(p: vec3<f32>) -> f32 {
    let i = floor(p);
    let f = fract(p);
    let u = f * f * (3.0 - 2.0 * f);
    let q = i.xy + i.z * vec2<f32>(37.0, 113.0);
    let offset = vec2<f32>(37.0, 113.0);
    let a = mix(mix(hash21(q), hash21(q + vec2<f32>(1.0, 0.0)), u.x),
        mix(hash21(q + vec2<f32>(0.0, 1.0)), hash21(q + vec2<f32>(1.0)), u.x), u.y);
    let b = mix(mix(hash21(q + offset), hash21(q + offset + vec2<f32>(1.0, 0.0)), u.x),
        mix(hash21(q + offset + vec2<f32>(0.0, 1.0)), hash21(q + offset + vec2<f32>(1.0)), u.x), u.y);
    return mix(a, b, u.z);
}
fn cloud_distance(p: vec3<f32>) -> f32 {
    let cell = floor(p.xz / 1300.0);
    let seed = hash21(cell);
    if (seed < 0.48) { return 300.0; }
    let center = (cell + vec2<f32>(0.5)) * 1300.0
        + vec2<f32>(hash21(cell + 13.0), hash21(cell + 71.0)) * 400.0 - 200.0;
    let local = p - vec3<f32>(center.x, 620.0 + hash21(cell + 51.0) * 180.0, center.y);
    let angle = seed * 31.0;
    let q = vec3<f32>(local.x * cos(angle) - local.z * sin(angle), local.y,
        local.x * sin(angle) + local.z * cos(angle));
    let radius = 130.0 + hash21(cell + 29.0) * 120.0;
    var d = length(q / vec3<f32>(1.35, 0.72, 1.0)) - radius;
    d = min(d, length(q - vec3<f32>(-110.0, 70.0, 20.0)) - radius * 0.76);
    d = min(d, length(q - vec3<f32>(85.0, 115.0, -35.0)) - radius * 0.82);
    d = min(d, length(q - vec3<f32>(10.0, 110.0 + hash21(cell + 7.0) * 120.0, 60.0)) - radius * 0.65);
    d = min(d, length(q - vec3<f32>(150.0, 20.0, 75.0)) - radius * 0.65);
    if (d < 65.0) {
        let detail = noise3(p * 0.018) * 0.60 + noise3(p * 0.041) * 0.28
            + noise3(p * 0.089) * 0.12;
        d = d + (detail - 0.42) * 95.0;
    }
    return d;
}
fn cloud_density(p: vec3<f32>) -> f32 {
    return clamp(-cloud_distance(p) / 32.0, 0.0, 1.0);
}
@fragment
fn fs_main(input: SkyOutput) -> @location(0) vec4<f32> {
    let ray = normalize(input.ray);
    let day = clamp(frame.params.x, 0.0, 1.0);
    let night = 1.0 - day;
    let sun = normalize(frame.sun_direction.xyz);
    let mu = dot(ray, sun);
    let altitude = 1.0 - exp(-max(ray.y, 0.0) * 3.0);
    var sky = mix(frame.sky_horizon.rgb, frame.sky_top.rgb, altitude);
    if (frame.time.y > 0.5) {
        return vec4<f32>(mix(vec3<f32>(0.025, 0.24, 0.30),
            vec3<f32>(0.08, 0.48, 0.54), altitude * 0.45), 1.0);
    }
    let twilight = (1.0 - smoothstep(0.0, 0.40, abs(sun.y))) * day;
    let horizon = exp(-max(ray.y, 0.0) * 8.0);
    let forward = pow(max(mu, 0.0), 8.0);
    sky = sky + frame.sun_color.rgb * forward * (0.045 * day);
    sky = mix(sky, vec3<f32>(0.72, 0.26, 0.09),
        twilight * horizon * pow(max(mu, 0.0), 3.0) * 0.65);
    sky = mix(sky, frame.fog_color.rgb, 1.0 - smoothstep(-0.12, 0.015, ray.y));
    let sun_distance = length(ray - sun);
    let moon_distance = length(ray + sun);
    let sun_aa = max(fwidth(sun_distance), 0.00015);
    let moon_aa = max(fwidth(moon_distance), 0.00015);
    let sun_disc = 1.0 - smoothstep(0.00465 - sun_aa, 0.00465 + sun_aa, sun_distance);
    let moon_disc = 1.0 - smoothstep(0.0045 - moon_aa, 0.0045 + moon_aa, moon_distance);
    sky = sky + frame.sun_color.rgb * (sun_disc * 5.0 + pow(max(mu, 0.0), 256.0) * 0.12)
        * smoothstep(-0.015, 0.035, sun.y);
    sky = sky + vec3<f32>(0.55, 0.64, 0.80) * moon_disc * night
        * smoothstep(-0.015, 0.035, -sun.y);
    let star_cell = ray * 230.0;
    let cell = floor(star_cell);
    let local = fract(star_cell) - vec3<f32>(0.5);
    let seed = hash21(cell.xy + cell.z * 0.37);
    let star = smoothstep(0.995, 1.0, seed) * (1.0 - smoothstep(0.06, 0.22, length(local)));
    sky = sky + vec3<f32>(0.56, 0.65, 0.85) * star * night * night
        * smoothstep(0.0, 0.2, ray.y);
    let eye = frame.world_origin.xyz + frame.camera_position.xyz;
    if (ray.y > 0.015 && eye.y < 1280.0) {
        var distance = max((400.0 - eye.y) / ray.y, 0.0);
        let end = min((1280.0 - eye.y) / ray.y, 7000.0);
        let wind = vec3<f32>(frame.time.x * 1.8, 0.0, frame.time.x * 0.65);
        var transmission = 1.0;
        var cloud_light = vec3<f32>(0.0);
        for (var i = 0; i < 96; i = i + 1) {
            if (distance >= end || transmission < 0.015) { break; }
            let p = eye + ray * distance + wind;
            let boundary = cloud_distance(p);
            let step_length = clamp(boundary * 0.65, 14.0, 180.0);
            let density = clamp(-boundary / 32.0, 0.0, 1.0);
            if (density > 0.001) {
                let opacity = 1.0 - exp(-density * step_length * 0.065);
                let light_depth = cloud_density(p + sun * 35.0) * 35.0
                    + cloud_density(p + sun * 90.0) * 55.0
                    + cloud_density(p + sun * 180.0) * 90.0;
                let sunlight = exp(-light_depth * 0.025);
                let height_light = smoothstep(470.0, 950.0, p.y);
                let ambient = mix(vec3<f32>(0.006, 0.009, 0.018),
                    mix(vec3<f32>(0.17, 0.22, 0.30), vec3<f32>(0.38, 0.43, 0.50), height_light), day);
                let direct = frame.sun_color.rgb * sunlight * day * 0.90;
                let lining = frame.sun_color.rgb * pow(max(mu, 0.0), 12.0) * sunlight * day * 0.18;
                let lit = mix(ambient + direct + lining, frame.sky_horizon.rgb,
                    1.0 - exp(-distance * 0.00032));
                cloud_light = cloud_light + transmission * opacity * lit;
                transmission = transmission * (1.0 - opacity);
            }
            distance = distance + step_length;
        }
        sky = sky * transmission + cloud_light;
    }
    return vec4<f32>(max(sky, vec3<f32>(0.0)), 1.0);
}
